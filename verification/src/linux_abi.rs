//! Linux x86_64 syscall ABI layer: what each system call of a Linux process
//! does to its memory and open files, and what it asks of the rest of the
//! kernel.
//!
//! A handler sees the calling process, physical memory and the shared-memory
//! objects. What it can do with those alone it does at once; for anything
//! else (the file layer, the socket layer, page tables) it returns the
//! `Action` that remains, and a second function turns the outcome into the
//! value the process gets.

use crate::bytes::{
    copy_into, get_le32, get_le64, le16, le32, le32_bytes, le64, le64_bytes, push_le32, push_le64,
    splice,
};
use crate::keyboard::{next_event, Event, Keyboard};
use crate::process::{
    good_mapping, heap_growth, inside, mmap_plan, next_fd, page_of, page_phys, same_but_fds,
    translate, translated, whole_pages, with_entry, FdEntry, MapRequest, Mapping,
    Process,
};
use crate::text::{chars_of, string_of, utf8};
use vstd::prelude::*;
use vstd::slice::slice_subrange;
use vstd::utf8::{decode_utf8, valid_utf8};

verus! {

pub const EBADF: i32 = 9;

pub const EFAULT: i32 = 14;

pub const EEXIST: i32 = 17;

pub const ENOTDIR: i32 = 20;

pub const EINVAL: i32 = 22;

pub const ENOTTY: i32 = 25;

pub const ESPIPE: i32 = 29;

pub const ENOSYS: i32 = 38;

pub const ENOENT: i32 = 2;

pub const EAGAIN: i32 = 11;

pub const EIO: i32 = 5;

pub const ENOMEM: i32 = 12;

pub const EPIPE: i32 = 32;

pub const EAFNOSUPPORT: i32 = 97;

pub const ECONNREFUSED: i32 = 111;

/// A failed call's value: the negated errno as a 64-bit word.
pub open spec fn failed(errno: int) -> u64 {
    (0x1_0000_0000_0000_0000 - errno) as u64
}

/// Negates and sign-extends `errno` into the raw `u64` a syscall returns on
/// failure.
fn err(errno: i32) -> (r: u64)
    requires
        0 < errno,
    ensures
        r == failed(errno as int),
{
    u64::MAX - (errno as u64 - 1)
}

/// What can go wrong in the file layer.
#[derive(Clone, Copy, Debug, PartialEq, Eq, Structural)]
pub enum VfsError {
    NotFound,
    NotDir,
    IsDir,
    AlreadyExists,
    Other,
}

pub open spec fn vfs_failed(e: VfsError) -> u64 {
    match e {
        VfsError::NotFound => failed(ENOENT as int),
        VfsError::NotDir => failed(ENOTDIR as int),
        VfsError::IsDir => failed(ENOTDIR as int),
        VfsError::AlreadyExists => failed(EEXIST as int),
        VfsError::Other => failed(EIO as int),
    }
}

/// The value of a call that the file layer failed.
pub fn vfs_err(e: VfsError) -> (r: u64)
    ensures
        r == vfs_failed(e),
{
    match e {
        VfsError::NotFound => err(ENOENT),
        VfsError::NotDir => err(ENOTDIR),
        VfsError::IsDir => err(ENOTDIR),
        VfsError::AlreadyExists => err(EEXIST),
        VfsError::Other => err(EIO),
    }
}

pub const SYS_READ: u64 = 0;

pub const SYS_WRITE: u64 = 1;

pub const SYS_CLOSE: u64 = 3;

pub const SYS_FSTAT: u64 = 5;

pub const SYS_LSEEK: u64 = 8;

pub const SYS_ACCESS: u64 = 21;

pub const SYS_PREAD64: u64 = 17;

pub const SYS_MMAP: u64 = 9;

pub const SYS_MPROTECT: u64 = 10;

pub const SYS_MUNMAP: u64 = 11;

pub const SYS_BRK: u64 = 12;

pub const SYS_RT_SIGACTION: u64 = 13;

pub const SYS_RT_SIGPROCMASK: u64 = 14;

pub const SYS_IOCTL: u64 = 16;

pub const SYS_WRITEV: u64 = 20;

pub const SYS_SYSINFO: u64 = 99;

pub const SYS_GETPID: u64 = 39;

pub const SYS_EXIT: u64 = 60;

pub const SYS_UNAME: u64 = 63;

pub const SYS_SCHED_GETAFFINITY: u64 = 204;

pub const SYS_FUTEX: u64 = 202;

pub const SYS_ARCH_PRCTL: u64 = 158;

pub const SYS_SET_TID_ADDRESS: u64 = 218;

pub const SYS_CLOCK_GETTIME: u64 = 228;

pub const SYS_EXIT_GROUP: u64 = 231;

pub const SYS_OPENAT: u64 = 257;

pub const SYS_NEWFSTATAT: u64 = 262;

pub const SYS_SET_ROBUST_LIST: u64 = 273;

pub const SYS_PRLIMIT64: u64 = 302;

pub const SYS_GETRANDOM: u64 = 318;

pub const SYS_RSEQ: u64 = 334;

pub const SYS_SOCKET: u64 = 41;

pub const SYS_CONNECT: u64 = 42;

pub const SYS_SENDMSG: u64 = 46;

pub const SYS_RECVMSG: u64 = 47;

pub const SYS_FTRUNCATE: u64 = 77;

pub const SYS_MEMFD_CREATE: u64 = 319;

/// A shared-memory object: `size` bytes at `phys`, in `pages` pages.
#[derive(Clone, Copy, Debug, PartialEq, Eq, Structural)]
pub struct Object {
    pub phys: u64,
    pub size: u64,
    pub pages: u64,
}

/// What a system call works on.
pub struct Caller {
    pub process: Process,
    /// Physical memory, from address 0 on.
    pub memory: Vec<u8>,
    /// The shared-memory objects by id.
    pub shm: Vec<Option<Object>>,
    /// Keys typed and not read yet.
    pub keyboard: Keyboard,
    pub pid: usize,
    /// Timer ticks since boot, 100 a second.
    pub ticks: u64,
    /// All and free physical memory, in bytes.
    pub total_ram: u64,
    pub free_ram: u64,
}

/// How an open request treats the file.
#[derive(Clone, Copy, Debug, PartialEq, Eq, Structural)]
pub struct OpenFlags {
    pub write_only: bool,
    pub read_write: bool,
    pub create: bool,
    pub truncate: bool,
    pub append: bool,
}

#[derive(Clone, Copy, Debug, PartialEq, Eq, Structural)]
pub enum SeekFrom {
    Start(u64),
    Current(i64),
    End(i64),
}

/// What remains to be done for a system call.
pub enum Action {
    /// Nothing: this is the call's value.
    Return(u64),
    /// Release what stood behind an fd that was closed, with
    /// `FdEntry::release`; the value is 0.
    Close(FdEntry),
    /// Print the bytes there; the value is their number.
    Print { phys: u64, len: u64 },
    /// Write the bytes there to an open file; see `written`.
    FileWrite { handle: usize, phys: u64, len: u64 },
    /// Read from an open file to there; the value is the count.
    FileRead { handle: usize, phys: u64, len: u64 },
    /// The same from an offset, leaving the file's own cursor alone.
    FilePread { handle: usize, phys: u64, len: u64, offset: u64 },
    /// Move an open file's cursor; the value is where it is then.
    FileSeek { handle: usize, from: SeekFrom },
    /// Find out about an open file; see `stat_done`.
    FileStat { handle: usize, statbuf: u64 },
    /// Open a file; see `opened`.
    Open { path: String, flags: OpenFlags },
    /// See whether there is a file; see `accessed`.
    Access { path: String },
    /// Find out about a file by its path; see `stat_done`.
    StatPath { path: String, statbuf: u64 },
    /// Write several buffers; see `Writev::step`.
    Vector(Writev),
    /// Map more heap; see `Process::brk_mapped`.
    GrowHeap { requested: u64, request: MapRequest },
    /// Map zeroed frames; see `mapped`.
    MapAnon { request: MapRequest },
    /// Map a shared-memory object's frames; see `mapped`.
    MapShared { request: MapRequest, shm_id: usize },
    /// Map a copy of a file's bytes from an offset on; see
    /// `Process::mmap_file` and `mapped`.
    MapFile {
        handle: usize,
        offset: u64,
        at: Option<u64>,
        len: u64,
        writable: bool,
        executable: bool,
    },
    /// Drop these mappings from the page tables; the value is 0.
    Unmap(Vec<Mapping>),
    /// Map these pages, which follow on each other, again with a new
    /// permission; the value is 0.
    Protect { pages: Vec<u64>, writable: bool, executable: bool },
    /// Create a shared-memory object; see `memfd_created`.
    NewShm,
    /// Give an object a size; see `truncated`.
    Truncate { id: usize, len: u64 },
    /// Create a socket; see `socket_created`.
    NewSocket,
    /// Connect a socket; see `connected`.
    Connect { id: usize, path: String },
    /// Send the bytes there on a socket; see `sent`.
    SocketSend { id: usize, phys: u64, len: u64 },
    /// Receive from a socket to there, releasing any object that comes
    /// along; the value is the count.
    SocketRecv { id: usize, phys: u64, len: u64 },
    /// Send a message with shared-memory objects; see `sent`.
    Send { id: usize, bytes: Vec<u8>, objects: Vec<usize> },
    /// Receive a message if there is one; see `recvmsg_buffer` and
    /// `recvmsg_done`.
    Receive { id: usize, msg_phys: u64 },
    /// Set the thread-pointer base; the value is 0.
    SetFsBase(u64),
    /// Report an unknown call; the value is `failed(ENOSYS)`.
    Unknown(u64),
}

/// A vectored write under way.
#[derive(Clone, Copy, Debug, PartialEq, Eq, Structural)]
pub struct Writev {
    pub fd: u64,
    pub iov: u64,
    pub iovcnt: u64,
    /// The next entry.
    pub next: u64,
    /// Bytes written.
    pub total: u64,
}

impl Caller {
    /// Mappings and objects lie in physical memory.
    pub open spec fn wf(&self) -> bool {
        &&& self.process.wf()
        &&& self.keyboard.wf()
        &&& forall|i: int|
            0 <= i < self.process.mappings@.len() ==> (
            #[trigger] self.process.mappings@[i]).phys + self.process.mappings@[i].len
                <= self.memory@.len()
        &&& forall|i: int|
            0 <= i < self.shm@.len() && (#[trigger] self.shm@[i]) is Some ==> self.shm@[i]->0.phys
                + self.shm@[i]->0.size <= self.memory@.len()
    }
}

/// Where a buffer of the process is in physical memory, if it is mapped.
pub open spec fn at(c: Caller, ptr: u64, len: u64) -> Option<u64> {
    translated(c.process.mappings@, c.process.mappings@.len(), ptr, len)
}

/// The open file behind an fd.
pub open spec fn entry(c: Caller, fd: u64) -> Option<FdEntry> {
    if fd < c.process.fds@.len() {
        c.process.fds@[fd as int]
    } else {
        None
    }
}

/// What an fd stands for, as far as these calls serve it.
#[derive(Clone, Copy, Debug, PartialEq, Eq, Structural)]
pub enum Target {
    File(usize),
    Shm(usize, u64),
    Socket(usize),
    Closed,
}

pub open spec fn target(c: Caller, fd: u64) -> Target {
    match entry(c, fd) {
        Some(FdEntry::File(h)) => Target::File(h),
        Some(FdEntry::Shm(id, cursor)) => Target::Shm(id, cursor),
        Some(FdEntry::Socket(id)) => Target::Socket(id),
        _ => Target::Closed,
    }
}

/// The shared-memory object with an id.
pub open spec fn object(c: Caller, id: usize) -> Option<Object> {
    if id < c.shm@.len() {
        c.shm@[id as int]
    } else {
        None
    }
}

/// `len` bytes at `phys`.
pub open spec fn held(c: Caller, phys: u64, len: u64) -> Seq<u8> {
    c.memory@.subrange(phys as int, phys + len)
}

/// Everything but the process and the memory is the same.
pub open spec fn same_rest(a: Caller, b: Caller) -> bool {
    &&& a.shm == b.shm
    &&& a.keyboard == b.keyboard
    &&& same_machine(a, b)
}

pub open spec fn same_machine(a: Caller, b: Caller) -> bool {
    &&& a.pid == b.pid
    &&& a.ticks == b.ticks
    &&& a.total_ram == b.total_ram
    &&& a.free_ram == b.free_ram
}

/// Bytes were stored in memory, and nothing else happened.
pub open spec fn stored(a: Caller, b: Caller, phys: u64, bytes: Seq<u8>) -> bool {
    &&& b.memory@ == splice(a.memory@, phys as int, bytes)
    &&& b.process == a.process
    &&& same_rest(a, b)
}

/// The fd table changed, and nothing else happened.
pub open spec fn refiled(a: Caller, b: Caller, fds: Seq<Option<FdEntry>>) -> bool {
    &&& b.memory == a.memory
    &&& b.process.fds@ == fds
    &&& b.process.cloexec == a.process.cloexec
    &&& same_but_fds(a.process, b.process)
    &&& same_rest(a, b)
}
proof fn lemma_translated_fits(ms: Seq<Mapping>, n: nat, ptr: u64, len: u64, total: int)
    requires
        n <= ms.len(),
        forall|i: int| 0 <= i < ms.len() ==> good_mapping(#[trigger] ms[i]),
        forall|i: int| 0 <= i < ms.len() ==> (#[trigger] ms[i]).phys + ms[i].len <= total,
    ensures
        translated(ms, n, ptr, len) matches Some(p) ==> p + len <= total,
    decreases n,
{
    if n > 0 {
        assert(good_mapping(ms[n - 1]));
        lemma_translated_fits(ms, (n - 1) as nat, ptr, len, total);
    }
}

fn resolve(c: &Caller, ptr: u64, len: u64) -> (r: Option<u64>)
    requires
        c.wf(),
    ensures
        r == at(*c, ptr, len),
        r matches Some(p) ==> p + len <= c.memory@.len() <= usize::MAX,
{
    proof {
        assert(c.memory@.len() == c.memory.len());
        lemma_translated_fits(
            c.process.mappings@,
            c.process.mappings@.len(),
            ptr,
            len,
            c.memory@.len() as int,
        );
    }
    translate(&c.process.mappings, ptr, len)
}

/// A copy of `len` bytes of memory.
pub fn bytes_at(memory: &Vec<u8>, phys: u64, len: u64) -> (r: Vec<u8>)
    requires
        phys + len <= memory@.len(),
    ensures
        r@ == memory@.subrange(phys as int, phys + len),
{
    assert(memory@.len() == memory.len());
    let mut out: Vec<u8> = Vec::new();
    let start = phys as usize;
    let n = len as usize;
    let mut i: usize = 0;
    while i < n
        invariant
            i <= n,
            start == phys,
            n == len,
            start + n <= memory@.len(),
            memory@.len() == memory.len(),
            out@ == memory@.subrange(start as int, start + i),
        decreases n - i,
    {
        out.push(memory[start + i]);
        i += 1;
        assert(out@ =~= memory@.subrange(start as int, start + i));
    }
    out
}

/// The characters of bytes that are printed one by one.
pub open spec fn printed(bytes: Seq<u8>) -> Seq<char> {
    bytes.map_values(|b: u8| b as char)
}

/// The text that printing bytes of memory shows.
pub fn text_at(memory: &Vec<u8>, phys: u64, len: u64) -> (r: String)
    requires
        phys + len <= memory@.len(),
    ensures
        r@ == printed(memory@.subrange(phys as int, phys + len)),
{
    let bytes = bytes_at(memory, phys, len);
    let mut out: Vec<char> = Vec::new();
    let mut i: usize = 0;
    while i < bytes.len()
        invariant
            i <= bytes@.len(),
            out@ == printed(bytes@.take(i as int)),
        decreases bytes@.len() - i,
    {
        out.push(bytes[i] as char);
        i += 1;
        assert(out@ =~= printed(bytes@.take(i as int)));
    }
    assert(bytes@.take(i as int) =~= bytes@);
    string_of(&out)
}

fn store(c: &mut Caller, phys: u64, bytes: &Vec<u8>)
    requires
        old(c).wf(),
        phys + bytes@.len() <= old(c).memory@.len(),
    ensures
        final(c).wf(),
        stored(*old(c), *final(c), phys, bytes@),
{
    assert(c.memory@.len() == c.memory.len());
    assert(bytes@.len() == bytes.len());
    copy_into(&mut c.memory, phys as usize, bytes.as_slice());
}

fn word_at(memory: &Vec<u8>, phys: u64) -> (r: u64)
    requires
        phys + 8 <= memory@.len(),
    ensures
        r == le64(memory@, phys as int),
{
    assert(memory@.len() == memory.len());
    get_le64(memory.as_slice(), phys as usize)
}

// ---------------------------------------------------------------------
// Paths
// ---------------------------------------------------------------------

/// The bytes of the process's memory from `ptr` on up to a zero, which has
/// to come within `max` bytes.
pub open spec fn c_bytes(c: Caller, ptr: u64, max: nat) -> Option<Seq<u8>>
    decreases max,
{
    if max == 0 {
        None
    } else {
        match at(c, ptr, 1) {
            None => None,
            Some(p) => if c.memory@[p as int] == 0 {
                Some(Seq::empty())
            } else {
                match c_bytes(c, (ptr + 1) as u64, (max - 1) as nat) {
                    None => None,
                    Some(rest) => Some(seq![c.memory@[p as int]] + rest),
                }
            },
        }
    }
}

/// The text of a NUL-terminated string of the process.
pub open spec fn c_text(c: Caller, ptr: u64, max: nat) -> Option<Seq<char>> {
    match c_bytes(c, ptr, max) {
        Some(b) => if valid_utf8(b) {
            Some(decode_utf8(b))
        } else {
            None
        },
        None => None,
    }
}

proof fn lemma_c_bytes_prefix(c: Caller, ptr: u64, max: nat, done: Seq<u8>, p: u64)
    requires
        max > 0,
        at(c, ptr, 1) == Some(p),
        c.memory@[p as int] != 0,
    ensures
        match c_bytes(c, ptr, max) {
            None => c_bytes(c, (ptr + 1) as u64, (max - 1) as nat) is None,
            Some(b) => c_bytes(c, (ptr + 1) as u64, (max - 1) as nat) matches Some(t) && done + b
                == done.push(c.memory@[p as int]) + t,
        },
{
    if let Some(t) = c_bytes(c, (ptr + 1) as u64, (max - 1) as nat) {
        assert(done + (seq![c.memory@[p as int]] + t) =~= done.push(c.memory@[p as int]) + t);
    }
}

/// Reads a NUL-terminated string from user memory.
fn read_cstr(c: &Caller, ptr: u64, max_len: u64) -> (r: Option<String>)
    requires
        c.wf(),
    ensures
        match c_text(*c, ptr, max_len as nat) {
            None => r is None,
            Some(t) => r matches Some(s) && s@ == t,
        },
{
    let mut bytes: Vec<u8> = Vec::new();
    let mut i: u64 = 0;
    assert(match c_bytes(*c, ptr, max_len as nat) {
        None => true,
        Some(b) => bytes@ + b =~= b,
    });
    while i < max_len
        invariant
            c.wf(),
            i <= max_len,
            ptr + i <= u64::MAX,
            match c_bytes(*c, ptr, max_len as nat) {
                None => c_bytes(*c, (ptr + i) as u64, (max_len - i) as nat) is None,
                Some(b) => c_bytes(*c, (ptr + i) as u64, (max_len - i) as nat) matches Some(t) && b
                    == bytes@ + t,
            },
        decreases max_len - i,
    {
        match resolve(c, ptr + i, 1) {
            None => {
                return None;
            },
            Some(p) => {
                let b = c.memory[p as usize];
                if b == 0 {
                    assert(bytes@ + Seq::<u8>::empty() =~= bytes@);
                    return utf8(bytes.as_slice());
                }
                proof {
                    lemma_c_bytes_prefix(
                        *c,
                        (ptr + i) as u64,
                        (max_len - i) as nat,
                        bytes@,
                        p,
                    );
                    lemma_translated_end(
                        c.process.mappings@,
                        c.process.mappings@.len(),
                        (ptr + i) as u64,
                    );
                }
                bytes.push(b);
                i += 1;
            },
        }
    }
    None
}

proof fn lemma_translated_end(ms: Seq<Mapping>, n: nat, ptr: u64)
    ensures
        translated(ms, n, ptr, 1) is Some ==> ptr < u64::MAX,
{
}

/// The absolute form of a path: a relative one is anchored at the root.
pub open spec fn absolute(path: Seq<char>) -> Seq<char> {
    if path.len() > 0 && path[0] == '/' {
        path
    } else {
        seq!['/'] + path
    }
}

/// Normalizes a syscall path argument to the absolute form the file layer
/// expects.
pub fn normalize_path(path: &str) -> (r: String)
    ensures
        r@ == absolute(path@),
{
    let chars = chars_of(path);
    if chars.len() > 0 && chars[0] == '/' {
        return string_of(&chars);
    }
    let mut out: Vec<char> = Vec::new();
    out.push('/');
    let mut i: usize = 0;
    assert(out@ =~= seq!['/'] + chars@.take(0));
    while i < chars.len()
        invariant
            i <= chars@.len(),
            out@ == seq!['/'] + chars@.take(i as int),
        decreases chars@.len() - i,
    {
        out.push(chars[i]);
        i += 1;
        assert(out@ =~= seq!['/'] + chars@.take(i as int));
    }
    assert(chars@.take(i as int) =~= chars@);
    string_of(&out)
}

/// Whether a bit of a word is set.
pub open spec fn flag(w: u64, bit: u64) -> bool {
    w / bit % 2 == 1
}

pub open spec fn open_flags(f: u64) -> OpenFlags {
    OpenFlags {
        write_only: f % 4 == 1,
        read_write: f % 4 == 2,
        create: flag(f, 0x40),
        truncate: flag(f, 0x200),
        append: flag(f, 0x400),
    }
}

/// What the flags of `open` ask for.
pub fn translate_open_flags(linux_flags: u64) -> (r: OpenFlags)
    ensures
        r == open_flags(linux_flags),
{
    OpenFlags {
        write_only: linux_flags % 4 == 1,
        read_write: linux_flags % 4 == 2,
        create: linux_flags / 0x40 % 2 == 1,
        truncate: linux_flags / 0x200 % 2 == 1,
        append: linux_flags / 0x400 % 2 == 1,
    }
}

// ---------------------------------------------------------------------
// File I/O
// ---------------------------------------------------------------------

fn target_of(c: &Caller, fd: u64) -> (r: Target)
    ensures
        r == target(*c, fd),
        !(r is Closed) ==> fd < c.process.fds@.len() <= usize::MAX,
{
    assert(c.process.fds@.len() == c.process.fds.len());
    if fd >= c.process.fds.len() as u64 {
        return Target::Closed;
    }
    match c.process.fd(fd as usize) {
        Some(FdEntry::File(h)) => Target::File(*h),
        Some(FdEntry::Shm(id, cursor)) => Target::Shm(*id, *cursor),
        Some(FdEntry::Socket(id)) => Target::Socket(*id),
        _ => Target::Closed,
    }
}

fn object_of(c: &Caller, id: usize) -> (r: Option<Object>)
    ensures
        r == object(*c, id),
{
    if id < c.shm.len() {
        c.shm[id]
    } else {
        None
    }
}

/// How many bytes a transfer at a cursor of an object moves.
pub open spec fn shm_count(o: Option<Object>, cursor: u64, len: u64) -> u64 {
    match o {
        None => 0,
        Some(o) => if cursor >= o.size {
            0
        } else if o.size - cursor < len {
            (o.size - cursor) as u64
        } else {
            len
        },
    }
}

fn count_of(o: Option<Object>, cursor: u64, len: u64) -> (r: u64)
    ensures
        r == shm_count(o, cursor, len),
{
    match o {
        None => 0,
        Some(o) => {
            let avail = o.size.saturating_sub(cursor);
            if avail < len {
                avail
            } else {
                len
            }
        },
    }
}

/// A transfer from or to an object moved its cursor and stored bytes.
pub open spec fn transferred(
    a: Caller,
    b: Caller,
    fd: u64,
    id: usize,
    cursor: u64,
    n: u64,
    from: u64,
    to: u64,
) -> bool {
    &&& b.memory@ == splice(a.memory@, to as int, held(a, from, n))
    &&& b.process.fds@ == a.process.fds@.update(
        fd as int,
        Some(FdEntry::Shm(id, (cursor + n) as u64)),
    )
    &&& b.process.cloexec == a.process.cloexec
    &&& same_but_fds(a.process, b.process)
    &&& same_rest(a, b)
}

/// Moves `n` bytes between an object at its cursor and a buffer.
fn transfer(c: &mut Caller, fd: u64, id: usize, cursor: u64, n: u64, from: u64, to: u64)
    requires
        old(c).wf(),
        target(*old(c), fd) == Target::Shm(id, cursor),
        cursor + n <= u64::MAX,
        from + n <= old(c).memory@.len(),
        to + n <= old(c).memory@.len(),
    ensures
        final(c).wf(),
        transferred(*old(c), *final(c), fd, id, cursor, n, from, to),
{
    assert(c.process.fds@.len() == c.process.fds.len());
    let bytes = bytes_at(&c.memory, from, n);
    store(c, to, &bytes);
    c.process.fd_mut(fd as usize, FdEntry::Shm(id, cursor + n));
}

/// What `write` does.
pub open spec fn writes(a: Caller, b: Caller, fd: u64, buf: u64, count: u64, r: Action) -> bool {
    match at(a, buf, count) {
        None => a == b && r == Action::Return(failed(EFAULT as int)),
        Some(phys) => if fd == 1 || fd == 2 {
            a == b && r == Action::Print { phys, len: count }
        } else if fd < 3 {
            a == b && r == Action::Return(failed(EBADF as int))
        } else {
            match target(a, fd) {
                Target::File(handle) => a == b && r == Action::FileWrite {
                    handle,
                    phys,
                    len: count,
                },
                Target::Shm(id, cursor) => {
                    let n = shm_count(object(a, id), cursor, count);
                    &&& r == Action::Return(n)
                    &&& if n == 0 {
                        a == b
                    } else {
                        transferred(
                            a,
                            b,
                            fd,
                            id,
                            cursor,
                            n,
                            phys,
                            (object(a, id)->0.phys + cursor) as u64,
                        )
                    }
                },
                Target::Socket(id) => a == b && r == Action::SocketSend { id, phys, len: count },
                Target::Closed => a == b && r == Action::Return(failed(EBADF as int)),
            }
        },
    }
}

/// `write(fd, buf, count)`.
pub fn sys_write(c: &mut Caller, fd: u64, buf: u64, count: u64) -> (r: Action)
    requires
        old(c).wf(),
    ensures
        final(c).wf(),
        writes(*old(c), *final(c), fd, buf, count, r),
{
    let phys = match resolve(c, buf, count) {
        None => {
            return Action::Return(err(EFAULT));
        },
        Some(p) => p,
    };
    if fd == 1 || fd == 2 {
        return Action::Print { phys, len: count };
    }
    if fd < 3 {
        return Action::Return(err(EBADF));
    }
    match target_of(c, fd) {
        Target::File(handle) => Action::FileWrite { handle, phys, len: count },
        Target::Shm(id, cursor) => {
            let o = object_of(c, id);
            let n = count_of(o, cursor, count);
            if n == 0 {
                return Action::Return(0);
            }
            if let Some(o) = o {
                transfer(c, fd, id, cursor, n, phys, o.phys + cursor);
            }
            Action::Return(n)
        },
        Target::Socket(id) => Action::SocketSend { id, phys, len: count },
        Target::Closed => Action::Return(err(EBADF)),
    }
}

/// The value of a write to a file.
pub fn written(outcome: Result<u64, VfsError>) -> (r: u64)
    ensures
        r == match outcome {
            Ok(n) => n,
            Err(e) => vfs_failed(e),
        },
{
    match outcome {
        Ok(n) => n,
        Err(e) => vfs_err(e),
    }
}

/// The value of a send on a socket: the peer may be gone.
pub fn sent(outcome: Option<u64>) -> (r: u64)
    ensures
        r == match outcome {
            Some(n) => n,
            None => failed(EPIPE as int),
        },
{
    match outcome {
        Some(n) => n,
        None => err(EPIPE),
    }
}

/// What reading at most `room` characters takes from the typed keys: the
/// bytes, and the keys that stay. Keys that are no characters are dropped
/// on the way.
pub open spec fn typed(keys: Seq<Event>, room: nat) -> (Seq<u8>, Seq<Event>)
    decreases keys.len(),
{
    if room == 0 || keys.len() == 0 {
        (Seq::empty(), keys)
    } else {
        match keys[0] {
            Event::Char(ch) => {
                let (b, rest) = typed(keys.skip(1), (room - 1) as nat);
                (seq![(ch as u32 % 256) as u8] + b, rest)
            },
            _ => typed(keys.skip(1), room),
        }
    }
}

/// What `read` does.
pub open spec fn reads(a: Caller, b: Caller, fd: u64, buf: u64, count: u64, r: Action) -> bool {
    match at(a, buf, count) {
        None => a == b && r == Action::Return(failed(EFAULT as int)),
        Some(phys) => if fd == 0 {
            let (bytes, rest) = typed(a.keyboard@.events, count as nat);
            &&& r == Action::Return(bytes.len() as u64)
            &&& b.memory@ == splice(a.memory@, phys as int, bytes)
            &&& b.process == a.process
            &&& b.shm == a.shm
            &&& same_machine(a, b)
            &&& b.keyboard@.events == rest
            &&& b.keyboard@.shift == a.keyboard@.shift
            &&& b.keyboard@.caps == a.keyboard@.caps
        } else if fd < 3 {
            a == b && r == Action::Return(failed(EBADF as int))
        } else {
            match target(a, fd) {
                Target::File(handle) => a == b && r == Action::FileRead { handle, phys, len: count },
                Target::Shm(id, cursor) => {
                    let n = shm_count(object(a, id), cursor, count);
                    &&& r == Action::Return(n)
                    &&& if n == 0 {
                        a == b
                    } else {
                        transferred(
                            a,
                            b,
                            fd,
                            id,
                            cursor,
                            n,
                            (object(a, id)->0.phys + cursor) as u64,
                            phys,
                        )
                    }
                },
                Target::Socket(id) => a == b && r == Action::SocketRecv { id, phys, len: count },
                Target::Closed => a == b && r == Action::Return(failed(EBADF as int)),
            }
        },
    }
}

/// Takes typed characters as bytes, at most `room`.
fn read_keys(keyboard: &mut Keyboard, room: u64) -> (r: Vec<u8>)
    requires
        old(keyboard).wf(),
        room <= usize::MAX,
    ensures
        final(keyboard).wf(),
        r@ == typed(old(keyboard)@.events, room as nat).0,
        r@.len() <= room,
        final(keyboard)@.events == typed(old(keyboard)@.events, room as nat).1,
        final(keyboard)@.shift == old(keyboard)@.shift,
        final(keyboard)@.caps == old(keyboard)@.caps,
{
    let mut out: Vec<u8> = Vec::new();
    let mut n: u64 = 0;
    let ghost all = typed(keyboard@.events, room as nat);
    assert(all.0 =~= out@ + all.0);
    loop
        invariant
            keyboard.wf(),
            keyboard@.shift == old(keyboard)@.shift,
            keyboard@.caps == old(keyboard)@.caps,
            n <= room,
            n == out@.len(),
            all == typed(old(keyboard)@.events, room as nat),
            all.0 == out@ + typed(keyboard@.events, (room - n) as nat).0,
            all.1 == typed(keyboard@.events, (room - n) as nat).1,
        decreases keyboard@.events.len(),
    {
        if n >= room {
            assert(out@ + Seq::<u8>::empty() =~= out@);
            return out;
        }
        let ghost now = keyboard@.events;
        match next_event(keyboard) {
            None => {
                assert(out@ + Seq::<u8>::empty() =~= out@);
                return out;
            },
            Some(Event::Char(ch)) => {
                let ghost before = out@;
                let byte = (ch as u32 % 256) as u8;
                out.push(byte);
                n += 1;
                proof {
                    let (b, rest) = typed(now.skip(1), (room - n) as nat);
                    assert(before + (seq![byte] + b) =~= out@ + b);
                }
            },
            Some(_) => {},
        }
    }
}

/// `read(fd, buf, count)`.
pub fn sys_read(c: &mut Caller, fd: u64, buf: u64, count: u64) -> (r: Action)
    requires
        old(c).wf(),
    ensures
        final(c).wf(),
        reads(*old(c), *final(c), fd, buf, count, r),
{
    let phys = match resolve(c, buf, count) {
        None => {
            return Action::Return(err(EFAULT));
        },
        Some(p) => p,
    };
    if fd == 0 {
        let bytes = read_keys(&mut c.keyboard, count);
        store(c, phys, &bytes);
        return Action::Return(bytes.len() as u64);
    }
    if fd < 3 {
        return Action::Return(err(EBADF));
    }
    match target_of(c, fd) {
        Target::File(handle) => Action::FileRead { handle, phys, len: count },
        Target::Shm(id, cursor) => {
            let o = object_of(c, id);
            let n = count_of(o, cursor, count);
            if n == 0 {
                return Action::Return(0);
            }
            if let Some(o) = o {
                transfer(c, fd, id, cursor, n, o.phys + cursor, phys);
            }
            Action::Return(n)
        },
        Target::Socket(id) => Action::SocketRecv { id, phys, len: count },
        Target::Closed => Action::Return(err(EBADF)),
    }
}

/// What `openat` does.
pub open spec fn opens(a: Caller, b: Caller, pathname: u64, flags: u64, r: Action) -> bool {
    a == b && match c_text(a, pathname, 256) {
        None => r == Action::Return(failed(EFAULT as int)),
        Some(t) => r matches Action::Open { path, flags: f } && path@ == absolute(t) && f
            == open_flags(flags),
    }
}

/// `openat(dirfd, pathname, flags, mode)`: the directory and the mode are
/// not honored.
pub fn sys_openat(c: &Caller, pathname: u64, flags: u64) -> (r: Action)
    requires
        c.wf(),
    ensures
        opens(*c, *c, pathname, flags, r),
{
    match read_cstr(c, pathname, 256) {
        None => Action::Return(err(EFAULT)),
        Some(p) => Action::Open {
            path: normalize_path(p.as_str()),
            flags: translate_open_flags(flags),
        },
    }
}

/// Files the outcome of an `Open`: the new fd, or the error.
pub fn opened(c: &mut Caller, outcome: Result<usize, VfsError>) -> (r: u64)
    requires
        old(c).wf(),
    ensures
        final(c).wf(),
        match outcome {
            Ok(h) => {
                &&& r == next_fd(old(c).process.fds@)
                &&& refiled(
                    *old(c),
                    *final(c),
                    with_entry(old(c).process.fds@, FdEntry::File(h)),
                )
            },
            Err(e) => r == vfs_failed(e) && *final(c) == *old(c),
        },
{
    match outcome {
        Ok(h) => c.process.alloc_fd(FdEntry::File(h)) as u64,
        Err(e) => vfs_err(e),
    }
}

/// What `access` does.
pub open spec fn accesses(a: Caller, b: Caller, pathname: u64, r: Action) -> bool {
    a == b && match c_text(a, pathname, 256) {
        None => r == Action::Return(failed(EFAULT as int)),
        Some(t) => r matches Action::Access { path } && path@ == absolute(t),
    }
}

/// `access(pathname, mode)` only ever checks existence.
pub fn sys_access(c: &Caller, pathname: u64) -> (r: Action)
    requires
        c.wf(),
    ensures
        accesses(*c, *c, pathname, r),
{
    match read_cstr(c, pathname, 256) {
        None => Action::Return(err(EFAULT)),
        Some(p) => Action::Access { path: normalize_path(p.as_str()) },
    }
}

/// The value of an `Access`.
pub fn accessed(outcome: Result<(), VfsError>) -> (r: u64)
    ensures
        r == match outcome {
            Ok(_) => 0,
            Err(e) => vfs_failed(e),
        },
{
    match outcome {
        Ok(_) => 0,
        Err(e) => vfs_err(e),
    }
}

/// What `close` does.
pub open spec fn closes(a: Caller, b: Caller, fd: u64, r: Action) -> bool {
    if fd < 3 {
        a == b && r == Action::Return(0)
    } else if entry(a, fd) is Some {
        r == Action::Close(entry(a, fd)->0) && refiled(a, b, a.process.fds@.update(fd as int, None))
    } else {
        a == b && r == Action::Return(failed(EBADF as int))
    }
}

/// `close(fd)`: the entry leaves the table and is handed on to be released.
/// The standard streams have no table entry to remove.
pub fn sys_close(c: &mut Caller, fd: u64) -> (r: Action)
    requires
        old(c).wf(),
    ensures
        final(c).wf(),
        closes(*old(c), *final(c), fd, r),
{
    if fd < 3 {
        return Action::Return(0);
    }
    assert(c.process.fds@.len() == c.process.fds.len());
    if fd < c.process.fds.len() as u64 {
        if let Some(e) = c.process.take_fd(fd as usize) {
            return Action::Close(e);
        }
    }
    Action::Return(err(EBADF))
}

/// A word read as a signed number.
pub open spec fn signed(v: u64) -> int {
    if v < 0x8000_0000_0000_0000 {
        v as int
    } else {
        v - 0x1_0000_0000_0000_0000
    }
}

fn to_signed(v: u64) -> (r: i64)
    ensures
        r == signed(v),
{
    if v < 0x8000_0000_0000_0000 {
        v as i64
    } else {
        -((u64::MAX - v) as i64) - 1
    }
}

/// Where a seek is to go, if a 64-bit signed number holds it.
pub open spec fn seek_goal(cursor: u64, size: u64, from: SeekFrom) -> int {
    match from {
        SeekFrom::Start(p) => signed(p),
        SeekFrom::Current(d) => signed(cursor) + d,
        SeekFrom::End(d) => signed(size) + d,
    }
}

/// Where a seek ends: never before the start.
pub open spec fn seek_end(cursor: u64, size: u64, from: SeekFrom) -> u64 {
    let goal = seek_goal(cursor, size, from);
    if 0 <= goal <= i64::MAX {
        goal as u64
    } else if goal < i64::MIN {
        (goal + 0x1_0000_0000_0000_0000) as u64
    } else {
        0
    }
}

/// Where a cursor goes in an object of the given size. A goal before the
/// start is the start, and one past what 64 bits hold wraps around first.
pub fn seek_cursor(cursor: u64, size: u64, from: SeekFrom) -> (r: u64)
    ensures
        r == seek_end(cursor, size, from),
{
    let base: i64 = match from {
        SeekFrom::Start(p) => to_signed(p),
        SeekFrom::Current(d) => to_signed(cursor).wrapping_add(d),
        SeekFrom::End(d) => to_signed(size).wrapping_add(d),
    };
    if base < 0 {
        0
    } else {
        base as u64
    }
}

/// What a whence and an offset ask for.
pub open spec fn seek_request(offset: u64, whence: u64) -> Option<SeekFrom> {
    if whence == 0 {
        Some(SeekFrom::Start(offset))
    } else if whence == 1 {
        Some(SeekFrom::Current(signed(offset) as i64))
    } else if whence == 2 {
        Some(SeekFrom::End(signed(offset) as i64))
    } else {
        None
    }
}

/// What `lseek` does.
pub open spec fn seeks(a: Caller, b: Caller, fd: u64, offset: u64, whence: u64, r: Action) -> bool {
    if fd < 3 {
        a == b && r == Action::Return(failed(ESPIPE as int))
    } else {
        match seek_request(offset, whence) {
            None => a == b && r == Action::Return(failed(EINVAL as int)),
            Some(from) => match target(a, fd) {
                Target::File(handle) => a == b && r == Action::FileSeek { handle, from },
                Target::Shm(id, cursor) => {
                    let size = match object(a, id) {
                        Some(o) => o.size,
                        None => 0,
                    };
                    let to = seek_end(cursor, size, from);
                    &&& r == Action::Return(to)
                    &&& refiled(
                        a,
                        b,
                        a.process.fds@.update(fd as int, Some(FdEntry::Shm(id, to))),
                    )
                },
                Target::Socket(_) => a == b && r == Action::Return(failed(ESPIPE as int)),
                Target::Closed => a == b && r == Action::Return(failed(EBADF as int)),
            },
        }
    }
}

/// `lseek(fd, offset, whence)`.
pub fn sys_lseek(c: &mut Caller, fd: u64, offset: u64, whence: u64) -> (r: Action)
    requires
        old(c).wf(),
    ensures
        final(c).wf(),
        seeks(*old(c), *final(c), fd, offset, whence, r),
{
    if fd < 3 {
        return Action::Return(err(ESPIPE));
    }
    let from = if whence == 0 {
        SeekFrom::Start(offset)
    } else if whence == 1 {
        SeekFrom::Current(to_signed(offset))
    } else if whence == 2 {
        SeekFrom::End(to_signed(offset))
    } else {
        return Action::Return(err(EINVAL));
    };
    match target_of(c, fd) {
        Target::File(handle) => Action::FileSeek { handle, from },
        Target::Shm(id, cursor) => {
            let size = match object_of(c, id) {
                Some(o) => o.size,
                None => 0,
            };
            let to = seek_cursor(cursor, size, from);
            c.process.fd_mut(fd as usize, FdEntry::Shm(id, to));
            Action::Return(to)
        },
        Target::Socket(_) => Action::Return(err(ESPIPE)),
        Target::Closed => Action::Return(err(EBADF)),
    }
}

/// What `pread64` does.
pub open spec fn preads(
    a: Caller,
    b: Caller,
    fd: u64,
    buf: u64,
    count: u64,
    offset: u64,
    r: Action,
) -> bool {
    a == b && if fd < 3 {
        r == Action::Return(failed(ESPIPE as int))
    } else {
        match at(a, buf, count) {
            None => r == Action::Return(failed(EFAULT as int)),
            Some(phys) => match target(a, fd) {
                Target::File(handle) => r == Action::FilePread { handle, phys, len: count, offset },
                _ => r == Action::Return(failed(EBADF as int)),
            },
        }
    }
}

/// `pread64(fd, buf, count, offset)`: reads without disturbing the fd's own
/// cursor.
pub fn sys_pread64(c: &Caller, fd: u64, buf: u64, count: u64, offset: u64) -> (r: Action)
    requires
        c.wf(),
    ensures
        preads(*c, *c, fd, buf, count, offset, r),
{
    if fd < 3 {
        return Action::Return(err(ESPIPE));
    }
    match resolve(c, buf, count) {
        None => Action::Return(err(EFAULT)),
        Some(phys) => match target_of(c, fd) {
            Target::File(handle) => Action::FilePread { handle, phys, len: count, offset },
            _ => Action::Return(err(EBADF)),
        },
    }
}

pub const S_IFREG: u32 = 0x8000;

pub const S_IFDIR: u32 = 0x4000;

pub const S_IFCHR: u32 = 0x2000;

pub const S_IFSOCK: u32 = 0xC000;

/// Size of `struct stat`.
pub const STAT_SIZE: u64 = 144;

pub open spec fn zeros(n: nat) -> Seq<u8> {
    Seq::new(n, |i: int| 0u8)
}

/// A `struct stat`: link count, mode, size, block size and blocks; the rest
/// is zero.
pub open spec fn stat_bytes(mode: u32, size: u64) -> Seq<u8> {
    zeros(16) + le64_bytes(1) + le32_bytes(mode) + zeros(20) + le64_bytes(size) + le64_bytes(4096)
        + le64_bytes(((size + 511) / 512) as u64) + zeros(72)
}

fn push_zeros(out: &mut Vec<u8>, n: usize)
    ensures
        final(out)@ == old(out)@ + zeros(n as nat),
{
    let mut i: usize = 0;
    assert(out@ =~= old(out)@ + zeros(0));
    while i < n
        invariant
            i <= n,
            out@ == old(out)@ + zeros(i as nat),
        decreases n - i,
    {
        out.push(0);
        i += 1;
        assert(out@ =~= old(out)@ + zeros(i as nat));
    }
}

/// A buffer of the process is filled: the value is 0, or an error if the
/// buffer is not mapped.
pub open spec fn fills(a: Caller, b: Caller, ptr: u64, len: u64, bytes: Seq<u8>, r: u64) -> bool {
    match at(a, ptr, len) {
        None => a == b && r == failed(EFAULT as int),
        Some(phys) => r == 0 && stored(a, b, phys, bytes),
    }
}

/// Writes a `struct stat` to a buffer of the process.
fn write_stat(c: &mut Caller, buf_ptr: u64, mode: u32, size: u64) -> (r: u64)
    requires
        old(c).wf(),
    ensures
        final(c).wf(),
        fills(*old(c), *final(c), buf_ptr, STAT_SIZE, stat_bytes(mode, size), r),
{
    let phys = match resolve(c, buf_ptr, STAT_SIZE) {
        None => {
            return err(EFAULT);
        },
        Some(p) => p,
    };
    let mut out: Vec<u8> = Vec::new();
    push_zeros(&mut out, 16);
    push_le64(&mut out, 1);
    push_le32(&mut out, mode);
    push_zeros(&mut out, 20);
    push_le64(&mut out, size);
    push_le64(&mut out, 4096);
    push_le64(&mut out, size / 512 + (if size % 512 == 0 { 0 } else { 1 }));
    push_zeros(&mut out, 72);
    assert((size + 511) / 512 == size / 512 + (if size % 512 == 0 { 0int } else { 1 }));
    assert(out@ =~= stat_bytes(mode, size));
    store(c, phys, &out);
    0
}

/// The mode of a file or a directory.
pub open spec fn file_mode(is_dir: bool) -> u32 {
    if is_dir {
        (S_IFDIR + 0o755) as u32
    } else {
        (S_IFREG + 0o644) as u32
    }
}

/// What `fstat` does.
pub open spec fn fstats(a: Caller, b: Caller, fd: u64, statbuf: u64, r: Action) -> bool {
    if fd < 3 {
        r matches Action::Return(v) && fills(
            a,
            b,
            statbuf,
            STAT_SIZE,
            stat_bytes((S_IFCHR + 0o666) as u32, 0),
            v,
        )
    } else {
        match target(a, fd) {
            Target::File(handle) => a == b && r == Action::FileStat { handle, statbuf },
            Target::Shm(id, _) => {
                let size = match object(a, id) {
                    Some(o) => o.size,
                    None => 0,
                };
                r matches Action::Return(v) && fills(
                    a,
                    b,
                    statbuf,
                    STAT_SIZE,
                    stat_bytes((S_IFREG + 0o600) as u32, size),
                    v,
                )
            },
            Target::Socket(_) => r matches Action::Return(v) && fills(
                a,
                b,
                statbuf,
                STAT_SIZE,
                stat_bytes((S_IFSOCK + 0o777) as u32, 0),
                v,
            ),
            Target::Closed => a == b && r == Action::Return(failed(EBADF as int)),
        }
    }
}

/// `fstat(fd, statbuf)`.
pub fn sys_fstat(c: &mut Caller, fd: u64, statbuf: u64) -> (r: Action)
    requires
        old(c).wf(),
    ensures
        final(c).wf(),
        fstats(*old(c), *final(c), fd, statbuf, r),
{
    if fd < 3 {
        return Action::Return(write_stat(c, statbuf, S_IFCHR + 0o666, 0));
    }
    match target_of(c, fd) {
        Target::File(handle) => Action::FileStat { handle, statbuf },
        Target::Shm(id, _) => {
            let size = match object_of(c, id) {
                Some(o) => o.size,
                None => 0,
            };
            Action::Return(write_stat(c, statbuf, S_IFREG + 0o600, size))
        },
        Target::Socket(_) => Action::Return(write_stat(c, statbuf, S_IFSOCK + 0o777, 0)),
        Target::Closed => Action::Return(err(EBADF)),
    }
}

/// Stores what the file layer found out for a `FileStat` or a `StatPath`:
/// whether it is a directory, and the size.
pub fn stat_done(c: &mut Caller, statbuf: u64, outcome: Result<(bool, u64), VfsError>) -> (r: u64)
    requires
        old(c).wf(),
    ensures
        final(c).wf(),
        match outcome {
            Ok((is_dir, size)) => fills(
                *old(c),
                *final(c),
                statbuf,
                STAT_SIZE,
                stat_bytes(file_mode(is_dir), size),
                r,
            ),
            Err(e) => r == vfs_failed(e) && *final(c) == *old(c),
        },
{
    match outcome {
        Ok((is_dir, size)) => {
            let mode = if is_dir { S_IFDIR + 0o755 } else { S_IFREG + 0o644 };
            write_stat(c, statbuf, mode, size)
        },
        Err(e) => vfs_err(e),
    }
}

/// What `newfstatat` does.
pub open spec fn stats_at(
    a: Caller,
    b: Caller,
    dirfd: u64,
    pathname: u64,
    statbuf: u64,
    flags: u64,
    r: Action,
) -> bool {
    if flag(flags, 0x1000) {
        fstats(a, b, dirfd, statbuf, r)
    } else {
        a == b && match c_text(a, pathname, 256) {
            None => r == Action::Return(failed(EFAULT as int)),
            Some(t) => r matches Action::StatPath { path, statbuf: s } && path@ == absolute(t) && s
                == statbuf,
        }
    }
}

/// `newfstatat(dirfd, pathname, statbuf, flags)`: with `AT_EMPTY_PATH` the
/// fd itself is meant, and the path is not looked at.
pub fn sys_newfstatat(c: &mut Caller, dirfd: u64, pathname: u64, statbuf: u64, flags: u64) -> (r:
    Action)
    requires
        old(c).wf(),
    ensures
        final(c).wf(),
        stats_at(*old(c), *final(c), dirfd, pathname, statbuf, flags, r),
{
    if flags / 0x1000 % 2 == 1 {
        return sys_fstat(c, dirfd, statbuf);
    }
    match read_cstr(c, pathname, 256) {
        None => Action::Return(err(EFAULT)),
        Some(p) => Action::StatPath { path: normalize_path(p.as_str()), statbuf },
    }
}

/// What a vectored write does next.
#[derive(Clone, Copy, Debug, PartialEq, Eq, Structural)]
pub enum WritevStep {
    /// It is over; this is the call's value.
    Done(u64),
    /// Write this buffer, as `write` does, and come back with its value.
    Write { base: u64, len: u64 },
}

/// Where entry `i` of the vector is, if it is mapped.
pub open spec fn iov_at(c: Caller, iov: u64, i: u64) -> Option<u64> {
    if iov + i * 16 > u64::MAX {
        None
    } else {
        at(c, (iov + i * 16) as u64, 16)
    }
}

/// The step from entry `i` on: the first entry that is not empty.
pub open spec fn next_write(c: Caller, w: Writev, i: u64) -> (WritevStep, u64)
    decreases w.iovcnt - i,
{
    if i >= w.iovcnt {
        (WritevStep::Done(w.total), i)
    } else {
        match iov_at(c, w.iov, i) {
            None => (WritevStep::Done(failed(EFAULT as int)), i),
            Some(p) => {
                let len = le64(c.memory@, p + 8);
                if len == 0 {
                    next_write(c, w, (i + 1) as u64)
                } else {
                    (
                        WritevStep::Write { base: le64(c.memory@, p as int), len },
                        (i + 1) as u64,
                    )
                }
            },
        }
    }
}

impl Writev {
    /// Counts what the last buffer gave (0 at first) and picks the next
    /// one. An error ends the whole call.
    pub fn step(&mut self, c: &Caller, last: u64) -> (r: WritevStep)
        requires
            c.wf(),
        ensures
            ({
                let w = Writev {
                    total: ((old(self).total + last) % 0x1_0000_0000_0000_0000) as u64,
                    ..*old(self)
                };
                if signed(last) < 0 {
                    r == WritevStep::Done(last) && *final(self) == *old(self)
                } else {
                    &&& r == next_write(*c, w, w.next).0
                    &&& *final(self) == (Writev { next: next_write(*c, w, w.next).1, ..w })
                }
            }),
    {
        if last >= 0x8000_0000_0000_0000 {
            return WritevStep::Done(last);
        }
        self.total = self.total.wrapping_add(last);
        let ghost w = *self;
        assert(self.total == (old(self).total + last) % 0x1_0000_0000_0000_0000);
        while self.next < self.iovcnt
            invariant
                c.wf(),
                w == (Writev {
                    total: ((old(self).total + last) % 0x1_0000_0000_0000_0000) as u64,
                    ..*old(self)
                }),
                signed(last) >= 0,
                *self == (Writev { next: self.next, ..w }),
                next_write(*c, w, w.next) == next_write(*c, w, self.next),
            decreases self.iovcnt - self.next,
        {
            let i = self.next;
            if i > (u64::MAX - self.iov) / 16 {
                return WritevStep::Done(err(EFAULT));
            }
            match resolve(c, self.iov + i * 16, 16) {
                None => {
                    return WritevStep::Done(err(EFAULT));
                },
                Some(p) => {
                    let base = word_at(&c.memory, p);
                    let len = word_at(&c.memory, p + 8);
                    self.next = i + 1;
                    if len != 0 {
                        return WritevStep::Write { base, len };
                    }
                },
            }
        }
        WritevStep::Done(self.total)
    }
}

// ---------------------------------------------------------------------
// Memory
// ---------------------------------------------------------------------

/// The mappings changed, and nothing else.
pub open spec fn remapped(a: Caller, b: Caller, mappings: Seq<Mapping>) -> bool {
    &&& b.process.mappings@ == mappings
    &&& b == (Caller {
        process: Process { mappings: b.process.mappings, ..a.process },
        ..a
    })
}

/// What `brk` does.
pub open spec fn breaks(a: Caller, b: Caller, addr: u64, r: Action) -> bool {
    let p = a.process;
    if addr < p.heap_start || addr > u64::MAX - 4095 {
        a == b && r == Action::Return(p.heap_end)
    } else if addr > p.heap_mapped {
        a == b && r == Action::GrowHeap { requested: addr, request: heap_growth(p, addr) }
    } else {
        r == Action::Return(addr) && b == (Caller {
            process: Process { heap_end: addr, ..a.process },
            ..a
        })
    }
}

/// `brk(addr)`: a break that cannot be set leaves it as it is.
pub fn sys_brk(c: &mut Caller, addr: u64) -> (r: Action)
    requires
        old(c).wf(),
    ensures
        final(c).wf(),
        breaks(*old(c), *final(c), addr, r),
{
    if addr > u64::MAX - 4095 {
        return Action::Return(c.process.heap_end);
    }
    match c.process.brk(addr) {
        Err(now) => Action::Return(now),
        Ok(request) => Action::GrowHeap { requested: addr, request },
    }
}

pub const MAP_SHARED: u64 = 0x01;

pub const MAP_FIXED: u64 = 0x10;

pub const MAP_ANONYMOUS: u64 = 0x20;

pub const PROT_WRITE: u64 = 2;

pub const PROT_EXEC: u64 = 4;

/// The largest file mapping: what a 32-bit count of bytes holds.
pub const MAX_FILE_MAP: u64 = 0x7FFF_0000;

/// Where a range may be mapped: a plan, if it does not reach past the end
/// of the address space.
pub open spec fn map_plan(c: Caller, at: Option<u64>, len: u64, w: bool, x: bool) -> Option<
    MapRequest,
> {
    if len + 4095 > u64::MAX {
        None
    } else {
        match mmap_plan(c.process.mmap_next, at, len, w, x) {
            Some(m) => if m.vaddr + m.len <= u64::MAX {
                Some(m)
            } else {
                None
            },
            None => None,
        }
    }
}

/// What `mmap` does.
pub open spec fn maps(
    a: Caller,
    b: Caller,
    addr: u64,
    len: u64,
    prot: u64,
    flags: u64,
    fd: u64,
    offset: u64,
    r: Action,
) -> bool {
    let at = if flag(flags, MAP_FIXED) {
        Some(addr)
    } else {
        None
    };
    let w = flag(prot, PROT_WRITE);
    let x = flag(prot, PROT_EXEC);
    a == b && if len == 0 {
        r == Action::Return(failed(EINVAL as int))
    } else if flag(flags, MAP_ANONYMOUS) || signed(fd) < 0 {
        match map_plan(a, at, len, w, x) {
            Some(request) => r == Action::MapAnon { request },
            None => r == Action::Return(failed(ENOMEM as int)),
        }
    } else {
        match target(a, fd) {
            Target::Shm(shm_id, _) => if !flag(flags, MAP_SHARED) {
                r == Action::Return(failed(EINVAL as int))
            } else {
                match object(a, shm_id) {
                    Some(o) => if o.pages == 0 || o.pages > 0xF_FFFF_FFFF {
                        r == Action::Return(failed(ENOMEM as int))
                    } else {
                        match map_plan(a, at, (o.pages * 4096) as u64, w, x) {
                            Some(request) => r == Action::MapShared { request, shm_id },
                            None => r == Action::Return(failed(ENOMEM as int)),
                        }
                    },
                    None => r == Action::Return(failed(ENOMEM as int)),
                }
            },
            Target::File(handle) => if len > MAX_FILE_MAP || map_plan(a, at, len, w, x) is None {
                r == Action::Return(failed(ENOMEM as int))
            } else {
                r == Action::MapFile { handle, offset, at, len, writable: w, executable: x }
            },
            _ => r == Action::Return(failed(EBADF as int)),
        }
    }
}

fn plan(c: &Caller, at: Option<u64>, len: u64, w: bool, x: bool) -> (r: Option<MapRequest>)
    ensures
        r == map_plan(*c, at, len, w, x),
{
    if len > u64::MAX - 4095 {
        return None;
    }
    match c.process.mmap_anon(at, len, w, x) {
        Some(m) => if m.len <= u64::MAX - m.vaddr {
            Some(m)
        } else {
            None
        },
        None => None,
    }
}

/// `mmap(addr, len, prot, flags, fd, offset)`. A file is mapped as a private
/// copy; a shared-memory object only shared. `fd` and `offset` only matter
/// without `MAP_ANONYMOUS`.
pub fn sys_mmap(c: &Caller, addr: u64, len: u64, prot: u64, flags: u64, fd: u64, offset: u64) -> (r:
    Action)
    requires
        c.wf(),
    ensures
        maps(*c, *c, addr, len, prot, flags, fd, offset, r),
{
    if len == 0 {
        return Action::Return(err(EINVAL));
    }
    let at = if flags / MAP_FIXED % 2 == 1 { Some(addr) } else { None };
    let w = prot / PROT_WRITE % 2 == 1;
    let x = prot / PROT_EXEC % 2 == 1;
    if flags / MAP_ANONYMOUS % 2 == 1 || fd >= 0x8000_0000_0000_0000 {
        return match plan(c, at, len, w, x) {
            Some(request) => Action::MapAnon { request },
            None => Action::Return(err(ENOMEM)),
        };
    }
    match target_of(c, fd) {
        Target::Shm(shm_id, _) => {
            if flags / MAP_SHARED % 2 != 1 {
                return Action::Return(err(EINVAL));
            }
            match object_of(c, shm_id) {
                Some(o) => {
                    if o.pages == 0 || o.pages > 0xF_FFFF_FFFF {
                        return Action::Return(err(ENOMEM));
                    }
                    match plan(c, at, o.pages * 4096, w, x) {
                        Some(request) => Action::MapShared { request, shm_id },
                        None => Action::Return(err(ENOMEM)),
                    }
                },
                None => Action::Return(err(ENOMEM)),
            }
        },
        Target::File(handle) => {
            if len > MAX_FILE_MAP || plan(c, at, len, w, x).is_none() {
                return Action::Return(err(ENOMEM));
            }
            Action::MapFile { handle, offset, at, len, writable: w, executable: x }
        },
        _ => Action::Return(err(EBADF)),
    }
}

/// Files the outcome of a mapping: where its frames are, or `None` if it
/// could not be made.
pub fn mapped(c: &mut Caller, request: MapRequest, phys: Option<u64>, shm_id: Option<usize>) -> (r:
    u64)
    requires
        old(c).wf(),
        request.vaddr + request.len <= u64::MAX,
        phys matches Some(p) ==> p + request.len <= old(c).memory@.len(),
    ensures
        final(c).wf(),
        match phys {
            None => r == failed(ENOMEM as int) && *final(c) == *old(c),
            Some(p) => {
                &&& r == request.vaddr
                &&& final(c).process.mappings@ == old(c).process.mappings@.push(
                    Mapping { vaddr: request.vaddr, phys: p, len: request.len, shm_id },
                )
                &&& *final(c) == (Caller {
                    process: Process {
                        mappings: final(c).process.mappings,
                        mmap_next: if request.fixed {
                            old(c).process.mmap_next
                        } else {
                            (request.vaddr + request.len) as u64
                        },
                        ..old(c).process
                    },
                    ..*old(c)
                })
            },
        },
{
    assert(c.memory@.len() == c.memory.len());
    match phys {
        None => err(ENOMEM),
        Some(p) => c.process.mmap_done(request, p, shm_id),
    }
}

/// What `munmap` does.
pub open spec fn unmaps(a: Caller, b: Caller, addr: u64, len: u64, r: Action) -> bool {
    if addr + len + 8192 > u64::MAX {
        a == b && r == Action::Return(failed(EINVAL as int))
    } else {
        &&& r matches Action::Unmap(gone) && gone@ == inside(a.process.mappings@, addr, len, true)
        &&& remapped(a, b, inside(a.process.mappings@, addr, len, false))
    }
}

proof fn lemma_inside_fits(ms: Seq<Mapping>, addr: u64, len: u64, want: bool, total: int)
    requires
        forall|i: int| 0 <= i < ms.len() ==> (#[trigger] ms[i]).phys + ms[i].len <= total,
    ensures
        forall|i: int|
            0 <= i < inside(ms, addr, len, want).len() ==> (#[trigger] inside(
                ms,
                addr,
                len,
                want,
            )[i]).phys + inside(ms, addr, len, want)[i].len <= total,
    decreases ms.len(),
{
    if ms.len() > 0 {
        let head = ms.drop_last();
        assert forall|i: int| 0 <= i < head.len() implies (#[trigger] head[i]).phys + head[i].len
            <= total by {
            assert(head[i] == ms[i]);
        }
        lemma_inside_fits(head, addr, len, want, total);
    }
}

/// `munmap(addr, len)`.
pub fn sys_munmap(c: &mut Caller, addr: u64, len: u64) -> (r: Action)
    requires
        old(c).wf(),
    ensures
        final(c).wf(),
        unmaps(*old(c), *final(c), addr, len, r),
{
    if len > u64::MAX - 8192 || addr > u64::MAX - 8192 - len {
        return Action::Return(err(EINVAL));
    }
    proof {
        lemma_inside_fits(c.process.mappings@, addr, len, false, c.memory@.len() as int);
    }
    Action::Unmap(c.process.munmap(addr, len))
}

/// What `mprotect` does.
pub open spec fn protects(a: Caller, b: Caller, addr: u64, len: u64, prot: u64, r: Action) -> bool {
    let n = whole_pages(
        if len == 0 {
            1
        } else {
            len as int
        },
    ) / 4096;
    let start = page_of(addr);
    a == b && if addr + len + 8192 > u64::MAX || !(forall|k: int|
        0 <= k < n ==> #[trigger] page_phys(a.process.mappings@, start, k) is Some) {
        r == Action::Return(failed(EINVAL as int))
    } else {
        r matches Action::Protect { pages, writable, executable } && pages@.len() == n && (forall|
            k: int,
        |
            0 <= k < n ==> Some(#[trigger] pages@[k]) == page_phys(a.process.mappings@, start, k))
            && writable == flag(prot, PROT_WRITE) && executable == flag(prot, PROT_EXEC)
    }
}

/// `mprotect(addr, len, prot)`.
pub fn sys_mprotect(c: &Caller, addr: u64, len: u64, prot: u64) -> (r: Action)
    requires
        c.wf(),
    ensures
        protects(*c, *c, addr, len, prot, r),
{
    if len > u64::MAX - 8192 || addr > u64::MAX - 8192 - len {
        return Action::Return(err(EINVAL));
    }
    match c.process.mprotect(addr, len) {
        None => Action::Return(err(EINVAL)),
        Some(pages) => Action::Protect {
            pages,
            writable: prot / PROT_WRITE % 2 == 1,
            executable: prot / PROT_EXEC % 2 == 1,
        },
    }
}

// ---------------------------------------------------------------------
// Shared memory
// ---------------------------------------------------------------------

/// `memfd_create`: gives a new object its fd.
pub fn memfd_created(c: &mut Caller, id: usize) -> (r: u64)
    requires
        old(c).wf(),
    ensures
        final(c).wf(),
        r == next_fd(old(c).process.fds@),
        refiled(*old(c), *final(c), with_entry(old(c).process.fds@, FdEntry::Shm(id, 0))),
{
    c.process.alloc_fd(FdEntry::Shm(id, 0)) as u64
}

/// What `ftruncate` does.
pub open spec fn truncates(a: Caller, b: Caller, fd: u64, len: u64, r: Action) -> bool {
    a == b && match target(a, fd) {
        Target::Shm(id, _) => r == Action::Truncate { id, len },
        _ => r == Action::Return(failed(EBADF as int)),
    }
}

/// `ftruncate(fd, len)`: only for shared-memory objects.
pub fn sys_ftruncate(c: &Caller, fd: u64, len: u64) -> (r: Action)
    ensures
        truncates(*c, *c, fd, len, r),
{
    match target_of(c, fd) {
        Target::Shm(id, _) => Action::Truncate { id, len },
        _ => Action::Return(err(EBADF)),
    }
}

/// The value of a `Truncate`.
pub fn truncated(done: bool) -> (r: u64)
    ensures
        r == if done {
            0
        } else {
            failed(ENOMEM as int)
        },
{
    if done {
        0
    } else {
        err(ENOMEM)
    }
}

// ---------------------------------------------------------------------
// AF_UNIX sockets
// ---------------------------------------------------------------------

pub const AF_UNIX: u64 = 1;

pub const SOCK_STREAM: u64 = 1;

pub const SOL_SOCKET: u32 = 1;

pub const SCM_RIGHTS: u32 = 1;

/// What `socket` does.
pub open spec fn sockets(a: Caller, b: Caller, domain: u64, ty: u64, r: Action) -> bool {
    a == b && r == if domain != AF_UNIX || ty % 16 != SOCK_STREAM {
        Action::Return(failed(EAFNOSUPPORT as int))
    } else {
        Action::NewSocket
    }
}

/// `socket(domain, type, protocol)`.
pub fn sys_socket(c: &Caller, domain: u64, ty: u64) -> (r: Action)
    ensures
        sockets(*c, *c, domain, ty, r),
{
    if domain != AF_UNIX || ty % 16 != SOCK_STREAM {
        Action::Return(err(EAFNOSUPPORT))
    } else {
        Action::NewSocket
    }
}

/// Gives a new socket its fd.
pub fn socket_created(c: &mut Caller, id: usize) -> (r: u64)
    requires
        old(c).wf(),
    ensures
        final(c).wf(),
        r == next_fd(old(c).process.fds@),
        refiled(*old(c), *final(c), with_entry(old(c).process.fds@, FdEntry::Socket(id))),
{
    c.process.alloc_fd(FdEntry::Socket(id)) as u64
}

/// The bytes before the first zero, from `i` on.
pub open spec fn before_zero(b: Seq<u8>, i: int) -> Seq<u8>
    decreases b.len() - i,
{
    if i >= b.len() || b[i] == 0 {
        Seq::empty()
    } else {
        seq![b[i]] + before_zero(b, i + 1)
    }
}

/// The path in a `struct sockaddr_un` of the process.
pub open spec fn unix_path(c: Caller, addr: u64, addrlen: u64) -> Option<Seq<char>> {
    let len = if addrlen < 110 {
        addrlen
    } else {
        110u64
    };
    if len < 2 {
        None
    } else {
        match at(c, addr, len) {
            None => None,
            Some(p) => {
                let path = before_zero(held(c, p, len), 2);
                if le16(c.memory@, p as int) != AF_UNIX || !valid_utf8(path) {
                    None
                } else {
                    Some(decode_utf8(path))
                }
            },
        }
    }
}

proof fn lemma_before_zero(b: Seq<u8>, i: int, n: int)
    requires
        0 <= i <= n <= b.len(),
        forall|k: int| i <= k < n ==> b[k] != 0,
        n == b.len() || b[n] == 0,
    ensures
        before_zero(b, i) == b.subrange(i, n),
    decreases n - i,
{
    if i < n {
        lemma_before_zero(b, i + 1, n);
        assert(seq![b[i]] + b.subrange(i + 1, n) =~= b.subrange(i, n));
    } else {
        assert(b.subrange(i, n) =~= Seq::<u8>::empty());
    }
}

/// Reads a `struct sockaddr_un` from user memory: the family, then a path
/// that ends at a zero or with the address.
fn read_sockaddr_un(c: &Caller, addr: u64, addrlen: u64) -> (r: Option<String>)
    requires
        c.wf(),
    ensures
        match unix_path(*c, addr, addrlen) {
            None => r is None,
            Some(t) => r matches Some(s) && s@ == t,
        },
{
    let len = if addrlen < 110 { addrlen } else { 110 };
    if len < 2 {
        return None;
    }
    match resolve(c, addr, len) {
        None => None,
        Some(p) => {
            let bytes = bytes_at(&c.memory, p, len);
            let family = bytes[0] as u64 + bytes[1] as u64 * 256;
            assert(family == le16(c.memory@, p as int));
            if family != AF_UNIX {
                return None;
            }
            let mut n: usize = 2;
            while n < bytes.len() && bytes[n] != 0
                invariant
                    2 <= n <= bytes@.len(),
                    forall|k: int| 2 <= k < n ==> bytes@[k] != 0,
                decreases bytes@.len() - n,
            {
                n += 1;
            }
            proof {
                lemma_before_zero(bytes@, 2, n as int);
            }
            utf8(slice_subrange(bytes.as_slice(), 2, n))
        },
    }
}

/// What `connect` does.
pub open spec fn connects(a: Caller, b: Caller, fd: u64, addr: u64, addrlen: u64, r: Action) -> bool {
    a == b && match unix_path(a, addr, addrlen) {
        None => r == Action::Return(failed(EINVAL as int)),
        Some(t) => match target(a, fd) {
            Target::Socket(id) => r matches Action::Connect { id: i, path } && i == id && path@
                == t,
            _ => r == Action::Return(failed(EBADF as int)),
        },
    }
}

/// `connect(fd, addr, addrlen)`.
pub fn sys_connect(c: &Caller, fd: u64, addr: u64, addrlen: u64) -> (r: Action)
    requires
        c.wf(),
    ensures
        connects(*c, *c, fd, addr, addrlen, r),
{
    match read_sockaddr_un(c, addr, addrlen) {
        None => Action::Return(err(EINVAL)),
        Some(path) => match target_of(c, fd) {
            Target::Socket(id) => Action::Connect { id, path },
            _ => Action::Return(err(EBADF)),
        },
    }
}

/// The value of a `Connect`.
pub fn connected(done: bool) -> (r: u64)
    ensures
        r == if done {
            0
        } else {
            failed(ECONNREFUSED as int)
        },
{
    if done {
        0
    } else {
        err(ECONNREFUSED)
    }
}

/// The bytes of the first buffer of a message.
pub open spec fn message_bytes(c: Caller, m: u64) -> Seq<u8> {
    let iov = le64(c.memory@, m + 16);
    if le64(c.memory@, m + 24) == 0 {
        Seq::empty()
    } else {
        match at(c, iov, 16) {
            None => Seq::empty(),
            Some(v) => {
                let len = le64(c.memory@, v + 8);
                match at(c, le64(c.memory@, v as int), len) {
                    None => Seq::empty(),
                    Some(p) => held(c, p, len),
                }
            },
        }
    }
}

/// The numbers in a control message that passes descriptors, in `room`
/// bytes of control data.
pub open spec fn rights(b: Seq<u8>) -> Seq<u32> {
    if b.len() < 16 || le32(b, 8) != SOL_SOCKET || le32(b, 12) != SCM_RIGHTS || le64(b, 0) <= 16 {
        Seq::empty()
    } else {
        let said = (le64(b, 0) - 16) / 4;
        let room = (b.len() - 16) / 4;
        Seq::new(
            (if said < room {
                said
            } else {
                room
            }) as nat,
            |i: int| le32(b, 16 + 4 * i),
        )
    }
}

/// The objects behind descriptors, without those that are none.
pub open spec fn objects_of(c: Caller, fds: Seq<u32>) -> Seq<usize>
    decreases fds.len(),
{
    if fds.len() == 0 {
        Seq::empty()
    } else {
        let rest = objects_of(c, fds.drop_last());
        match target(c, fds.last() as u64) {
            Target::Shm(id, _) => rest.push(id),
            _ => rest,
        }
    }
}

/// The control data of a message.
pub open spec fn control_bytes(c: Caller, m: u64) -> Seq<u8> {
    let len = le64(c.memory@, m + 40);
    match at(c, le64(c.memory@, m + 32), len) {
        None => Seq::empty(),
        Some(p) => held(c, p, len),
    }
}

/// What `sendmsg` does.
pub open spec fn sends(a: Caller, b: Caller, fd: u64, msg: u64, r: Action) -> bool {
    a == b && match at(a, msg, 56) {
        None => r == Action::Return(failed(EFAULT as int)),
        Some(m) => match target(a, fd) {
            Target::Socket(id) => r matches Action::Send { id: i, bytes, objects } && i == id
                && bytes@ == message_bytes(a, m) && objects@ == objects_of(
                a,
                rights(control_bytes(a, m)),
            ),
            _ => r == Action::Return(failed(EBADF as int)),
        },
    }
}

fn payload(c: &Caller, m: u64) -> (r: Vec<u8>)
    requires
        c.wf(),
        m + 56 <= c.memory@.len(),
    ensures
        r@ == message_bytes(*c, m),
{
    assert(c.memory@.len() == c.memory.len());
    let iov = word_at(&c.memory, m + 16);
    let count = word_at(&c.memory, m + 24);
    if count == 0 {
        return Vec::new();
    }
    match resolve(c, iov, 16) {
        None => Vec::new(),
        Some(v) => {
            let base = word_at(&c.memory, v);
            let len = word_at(&c.memory, v + 8);
            match resolve(c, base, len) {
                None => Vec::new(),
                Some(p) => bytes_at(&c.memory, p, len),
            }
        },
    }
}

fn passed_objects(c: &Caller, b: &Vec<u8>) -> (r: Vec<usize>)
    ensures
        r@ == objects_of(*c, rights(b@)),
{
    let mut out: Vec<usize> = Vec::new();
    assert(b@.len() == b.len());
    if b.len() < 16 {
        return out;
    }
    let said = get_le64(b.as_slice(), 0);
    if get_le32(b.as_slice(), 8) != SOL_SOCKET || get_le32(b.as_slice(), 12) != SCM_RIGHTS || said
        <= 16 {
        return out;
    }
    let said = (said - 16) / 4;
    let room = (b.len() - 16) / 4;
    let n = if said < room as u64 { said as usize } else { room };
    let ghost fds = rights(b@);
    let mut i: usize = 0;
    assert(fds.take(0) =~= Seq::<u32>::empty());
    while i < n
        invariant
            i <= n == fds.len(),
            n <= (b.len() - 16) / 4,
            b@.len() == b.len() >= 16,
            forall|k: int| 0 <= k < n ==> #[trigger] fds[k] == le32(b@, 16 + 4 * k),
            out@ == objects_of(*c, fds.take(i as int)),
        decreases n - i,
    {
        let fd = get_le32(b.as_slice(), 16 + 4 * i);
        proof {
            assert(fds.take(i + 1).drop_last() =~= fds.take(i as int));
            assert(fds.take(i + 1).last() == fd);
        }
        match target_of(c, fd as u64) {
            Target::Shm(id, _) => {
                out.push(id);
            },
            _ => {},
        }
        i += 1;
    }
    assert(fds.take(i as int) =~= fds);
    out
}

/// `sendmsg(fd, msg, flags)`: the bytes of the first buffer, and the
/// shared-memory objects behind the descriptors of one `SCM_RIGHTS` control
/// message. A buffer or control data that is not mapped counts as empty.
pub fn sys_sendmsg(c: &Caller, fd: u64, msg: u64) -> (r: Action)
    requires
        c.wf(),
    ensures
        sends(*c, *c, fd, msg, r),
{
    let m = match resolve(c, msg, 56) {
        None => {
            return Action::Return(err(EFAULT));
        },
        Some(m) => m,
    };
    let id = match target_of(c, fd) {
        Target::Socket(id) => id,
        _ => {
            return Action::Return(err(EBADF));
        },
    };
    let bytes = payload(c, m);
    let control = word_at(&c.memory, m + 32);
    let len = word_at(&c.memory, m + 40);
    let objects = match resolve(c, control, len) {
        None => {
            let none: Vec<u8> = Vec::new();
            assert(none@ =~= Seq::<u8>::empty());
            passed_objects(c, &none)
        },
        Some(p) => {
            let b = bytes_at(&c.memory, p, len);
            passed_objects(c, &b)
        },
    };
    Action::Send { id, bytes, objects }
}

/// What `recvmsg` does first.
pub open spec fn receives(a: Caller, b: Caller, fd: u64, msg: u64, r: Action) -> bool {
    a == b && match at(a, msg, 56) {
        None => r == Action::Return(failed(EFAULT as int)),
        Some(m) => match target(a, fd) {
            Target::Socket(id) => r == Action::Receive { id, msg_phys: m },
            _ => r == Action::Return(failed(EBADF as int)),
        },
    }
}

/// `recvmsg(fd, msg, flags)`: never blocks.
pub fn sys_recvmsg(c: &Caller, fd: u64, msg: u64) -> (r: Action)
    requires
        c.wf(),
    ensures
        receives(*c, *c, fd, msg, r),
{
    match resolve(c, msg, 56) {
        None => Action::Return(err(EFAULT)),
        Some(m) => match target_of(c, fd) {
            Target::Socket(id) => Action::Receive { id, msg_phys: m },
            _ => Action::Return(err(EBADF)),
        },
    }
}

/// Where a message that is received goes.
#[derive(Clone, Copy, Debug, PartialEq, Eq, Structural)]
pub struct Inbound {
    /// The data buffer, if there is a usable one, and its length.
    pub buffer: Option<u64>,
    pub len: u64,
    /// The control buffer, if it is mapped, and its length.
    pub control: Option<u64>,
    pub room: u64,
}

/// The buffers that the message header at `m` names.
pub open spec fn inbound(c: Caller, m: u64) -> Inbound {
    let iov = le64(c.memory@, m + 16);
    let room = le64(c.memory@, m + 40);
    let none = (None::<u64>, 0u64);
    let (buffer, len) = if le64(c.memory@, m + 24) == 0 {
        none
    } else {
        match at(c, iov, 16) {
            None => none,
            Some(v) => {
                let len = le64(c.memory@, v + 8);
                (at(c, le64(c.memory@, v as int), len), len)
            },
        }
    };
    Inbound { buffer, len, control: at(c, le64(c.memory@, m + 32), room), room }
}

/// Where to receive to, or the call's value when nothing is queued.
pub fn recvmsg_buffer(c: &Caller, msg_phys: u64, has_data: bool) -> (r: Result<Inbound, u64>)
    requires
        c.wf(),
        msg_phys + 56 <= c.memory@.len(),
    ensures
        r == if has_data {
            Ok::<Inbound, u64>(inbound(*c, msg_phys))
        } else {
            Err(failed(EAGAIN as int))
        },
{
    assert(c.memory@.len() == c.memory.len());
    if !has_data {
        return Err(err(EAGAIN));
    }
    let iov = word_at(&c.memory, msg_phys + 16);
    let count = word_at(&c.memory, msg_phys + 24);
    let control_ptr = word_at(&c.memory, msg_phys + 32);
    let room = word_at(&c.memory, msg_phys + 40);
    let mut buffer: Option<u64> = None;
    let mut len: u64 = 0;
    if count > 0 {
        if let Some(v) = resolve(c, iov, 16) {
            let base = word_at(&c.memory, v);
            len = word_at(&c.memory, v + 8);
            buffer = resolve(c, base, len);
        }
    }
    Ok(Inbound { buffer, len, control: resolve(c, control_ptr, room), room })
}

/// How many objects a receiver gets.
pub open spec fn granted(i: Inbound, ids: nat) -> nat {
    if i.control is None || ids == 0 || i.room < 16 {
        0
    } else {
        let room = ((i.room - 16) / 4) as nat;
        if room < ids {
            room
        } else {
            ids
        }
    }
}

/// The fd table after `n` objects got their fds.
pub open spec fn fds_granted(fds: Seq<Option<FdEntry>>, ids: Seq<usize>, n: nat) -> Seq<
    Option<FdEntry>,
>
    decreases n,
{
    if n == 0 {
        fds
    } else {
        with_entry(fds_granted(fds, ids, (n - 1) as nat), FdEntry::Shm(ids[n - 1], 0))
    }
}

/// The fd that object `i` got.
pub open spec fn fd_granted(fds: Seq<Option<FdEntry>>, ids: Seq<usize>, i: int) -> u32 {
    (next_fd(fds_granted(fds, ids, i as nat)) % 0x1_0000_0000) as u32
}

/// The first `n` descriptors as bytes.
pub open spec fn fd_words(fds: Seq<u32>) -> Seq<u8>
    decreases fds.len(),
{
    if fds.len() == 0 {
        Seq::empty()
    } else {
        fd_words(fds.drop_last()) + le32_bytes(fds.last())
    }
}

/// A control message that passes descriptors.
pub open spec fn rights_bytes(fds: Seq<u32>) -> Seq<u8> {
    le64_bytes((16 + 4 * fds.len()) as u64) + le32_bytes(SOL_SOCKET) + le32_bytes(SCM_RIGHTS)
        + fd_words(fds)
}

proof fn lemma_fd_words(fds: Seq<u32>)
    ensures
        fd_words(fds).len() == 4 * fds.len(),
        forall|i: int| 0 <= i < fds.len() ==> #[trigger] le32(fd_words(fds), 4 * i) == fds[i],
    decreases fds.len(),
{
    if fds.len() > 0 {
        let head = fds.drop_last();
        lemma_fd_words(head);
        crate::bytes::lemma_le32_round_trip(fds.last());
        assert forall|i: int| 0 <= i < fds.len() implies #[trigger] le32(fd_words(fds), 4 * i)
            == fds[i] by {
            let b = fd_words(fds);
            if i < head.len() {
                assert(le32(fd_words(head), 4 * i) == head[i]);
                assert(b[4 * i] == fd_words(head)[4 * i]);
                assert(b[4 * i + 1] == fd_words(head)[4 * i + 1]);
                assert(b[4 * i + 2] == fd_words(head)[4 * i + 2]);
                assert(b[4 * i + 3] == fd_words(head)[4 * i + 3]);
            } else {
                let t = le32_bytes(fds.last());
                assert(b[4 * i] == t[0]);
                assert(b[4 * i + 1] == t[1]);
                assert(b[4 * i + 2] == t[2]);
                assert(b[4 * i + 3] == t[3]);
            }
        }
    }
}

/// A control message written for a receiver reads back, as a sender's is
/// read, to the descriptors that were put in.
pub proof fn law_rights_round_trip(fds: Seq<u32>)
    requires
        0 < fds.len() < 0x1000_0000,
    ensures
        rights(rights_bytes(fds)) == fds,
{
    let b = rights_bytes(fds);
    let head = le64_bytes((16 + 4 * fds.len()) as u64);
    lemma_fd_words(fds);
    crate::bytes::lemma_le64_round_trip((16 + 4 * fds.len()) as u64);
    crate::bytes::lemma_le32_round_trip(SOL_SOCKET);
    assert(le64(b, 0) == le64(head, 0)) by {
        assert(b.subrange(0, 8) =~= head);
        assert(forall|i: int| 0 <= i < 8 ==> b[i] == head[i]);
    }
    assert(le32(b, 8) == le32(le32_bytes(SOL_SOCKET), 0));
    assert(le32(b, 12) == le32(le32_bytes(SCM_RIGHTS), 0));
    assert forall|i: int| 0 <= i < fds.len() implies #[trigger] rights(b)[i] == fds[i] by {
        assert(le32(fd_words(fds), 4 * i) == fds[i]);
        assert(b[16 + 4 * i] == fd_words(fds)[4 * i]);
        assert(b[16 + 4 * i + 1] == fd_words(fds)[4 * i + 1]);
        assert(b[16 + 4 * i + 2] == fd_words(fds)[4 * i + 2]);
        assert(b[16 + 4 * i + 3] == fd_words(fds)[4 * i + 3]);
    }
    assert(rights(b) =~= fds);
}

/// A message's objects were given fds, its control message and the length
/// of that were stored.
pub open spec fn received(a: Caller, b: Caller, m: u64, i: Inbound, ids: Seq<usize>) -> bool {
    let n = granted(i, ids.len());
    let shown = Seq::new(n, |k: int| fd_granted(a.process.fds@, ids, k));
    let gives = i.control is Some && ids.len() > 0 && i.room >= 16;
    let with_control = if gives {
        splice(a.memory@, i.control->0 as int, rights_bytes(shown))
    } else {
        a.memory@
    };
    &&& b.memory@ == splice(
        with_control,
        m + 40,
        le64_bytes(
            if gives {
                (16 + 4 * n) as u64
            } else {
                0
            },
        ),
    )
    &&& b.process.fds@ == fds_granted(a.process.fds@, ids, n)
    &&& b.process.cloexec == a.process.cloexec
    &&& same_but_fds(a.process, b.process)
    &&& same_rest(a, b)
}

/// Files a received message: the objects that came with it get fds, as many
/// as the control buffer has room for. The ids returned are those that got
/// none and have to be released.
pub fn recvmsg_done(c: &mut Caller, msg_phys: u64, i: Inbound, ids: &Vec<usize>) -> (r: Vec<usize>)
    requires
        old(c).wf(),
        msg_phys + 56 <= old(c).memory@.len(),
        i.control matches Some(p) ==> p + i.room <= old(c).memory@.len(),
    ensures
        final(c).wf(),
        received(*old(c), *final(c), msg_phys, i, ids@),
        r@ == ids@.skip(granted(i, ids@.len()) as int),
{
    assert(c.memory@.len() == c.memory.len());
    assert(ids@.len() == ids.len());
    let ghost fds0 = c.process.fds@;
    let mut out: Vec<usize> = Vec::new();
    let mut used: u64 = 0;
    let mut n: usize = 0;
    let ghost count = granted(i, ids@.len());
    let ghost shown = Seq::new(count, |k: int| fd_granted(fds0, ids@, k));
    match i.control {
        Some(ctrl) => {
            if ids.len() > 0 && i.room >= 16 {
                let room = (i.room - 16) / 4;
                let max = if room < ids.len() as u64 { room as usize } else { ids.len() };
                used = 16 + 4 * max as u64;
                let mut b: Vec<u8> = Vec::new();
                push_le64(&mut b, used);
                push_le32(&mut b, SOL_SOCKET);
                push_le32(&mut b, SCM_RIGHTS);
                let ghost head = b@;
                assert(head =~= le64_bytes(used) + le32_bytes(SOL_SOCKET) + le32_bytes(SCM_RIGHTS));
                assert(b@ =~= head + fd_words(shown.take(0)));
                while n < max
                    invariant
                        n <= max == count,
                        max <= ids@.len(),
                        shown == Seq::new(count, |k: int| fd_granted(fds0, ids@, k)),
                        c.wf(),
                        c.memory == old(c).memory,
                        same_rest(*old(c), *c),
                        c.process.cloexec == old(c).process.cloexec,
                        same_but_fds(old(c).process, c.process),
                        c.process.fds@ == fds_granted(fds0, ids@, n as nat),
                        b@ == head + fd_words(shown.take(n as int)),
                    decreases max - n,
                {
                    let fd = c.process.alloc_fd(FdEntry::Shm(ids[n], 0));
                    let word = (fd as u64 % 0x1_0000_0000) as u32;
                    push_le32(&mut b, word);
                    proof {
                        assert(shown.take(n + 1).drop_last() =~= shown.take(n as int));
                        assert(shown.take(n + 1).last() == word);
                        assert(b@ =~= head + fd_words(shown.take(n + 1)));
                    }
                    n += 1;
                }
                proof {
                    assert(shown.take(n as int) =~= shown);
                    lemma_fd_words(shown);
                    assert(b@ =~= rights_bytes(shown));
                }
                store(c, ctrl, &b);
            }
        },
        None => {},
    }
    let mut word: Vec<u8> = Vec::new();
    push_le64(&mut word, used);
    assert(word@ =~= le64_bytes(used));
    store(c, msg_phys + 40, &word);
    let ghost first = n as int;
    assert(out@ =~= ids@.subrange(first, n as int));
    while n < ids.len()
        invariant
            0 <= first <= n <= ids@.len(),
            out@ == ids@.subrange(first, n as int),
        decreases ids@.len() - n,
    {
        out.push(ids[n]);
        n += 1;
        assert(out@ =~= ids@.subrange(first, n as int));
    }
    assert(out@ =~= ids@.skip(first));
    out
}

// ---------------------------------------------------------------------
// Startup and runtime
// ---------------------------------------------------------------------

pub const ARCH_SET_FS: u64 = 0x1002;

/// What `arch_prctl` does.
pub open spec fn prctls(a: Caller, b: Caller, code: u64, addr: u64, r: Action) -> bool {
    a == b && r == if code == ARCH_SET_FS {
        Action::SetFsBase(addr)
    } else {
        Action::Return(failed(EINVAL as int))
    }
}

/// `arch_prctl(code, addr)`.
pub fn sys_arch_prctl(c: &Caller, code: u64, addr: u64) -> (r: Action)
    ensures
        prctls(*c, *c, code, addr, r),
{
    if code == ARCH_SET_FS {
        Action::SetFsBase(addr)
    } else {
        Action::Return(err(EINVAL))
    }
}

/// A text in a field of 65 bytes, filled up with zeros.
pub open spec fn uname_field(s: Seq<u8>) -> Seq<u8> {
    s + zeros((65 - s.len()) as nat)
}

/// "Linux", "machaos", "6.1.0-machaos", "#1 SMP", "x86_64", and nothing.
pub open spec fn uname_bytes() -> Seq<u8> {
    uname_field(seq![76u8, 105, 110, 117, 120]) + uname_field(
        seq![109u8, 97, 99, 104, 97, 111, 115],
    ) + uname_field(seq![54u8, 46, 49, 46, 48, 45, 109, 97, 99, 104, 97, 111, 115]) + uname_field(
        seq![35u8, 49, 32, 83, 77, 80],
    ) + uname_field(seq![120u8, 56, 54, 95, 54, 52]) + uname_field(Seq::empty())
}

fn push_field(out: &mut Vec<u8>, s: &Vec<u8>)
    requires
        s@.len() <= 65,
    ensures
        final(out)@ == old(out)@ + uname_field(s@),
{
    let mut i: usize = 0;
    assert(out@ =~= old(out)@ + s@.take(0));
    while i < s.len()
        invariant
            i <= s@.len(),
            out@ == old(out)@ + s@.take(i as int),
        decreases s@.len() - i,
    {
        out.push(s[i]);
        i += 1;
        assert(out@ =~= old(out)@ + s@.take(i as int));
    }
    assert(s@.take(i as int) =~= s@);
    push_zeros(out, 65 - s.len());
    assert(out@ =~= old(out)@ + uname_field(s@));
}

/// A call that fills a buffer and nothing else.
pub open spec fn fills_only(a: Caller, b: Caller, ptr: u64, len: u64, bytes: Seq<u8>, r: Action) -> bool {
    r matches Action::Return(v) && fills(a, b, ptr, len, bytes, v)
}

/// `uname(buf)`.
pub fn sys_uname(c: &mut Caller, buf: u64) -> (r: Action)
    requires
        old(c).wf(),
    ensures
        final(c).wf(),
        fills_only(*old(c), *final(c), buf, 390, uname_bytes(), r),
{
    let phys = match resolve(c, buf, 390) {
        None => {
            return Action::Return(err(EFAULT));
        },
        Some(p) => p,
    };
    let mut out: Vec<u8> = Vec::new();
    let sysname: Vec<u8> = vec![76u8, 105, 110, 117, 120];
    let nodename: Vec<u8> = vec![109u8, 97, 99, 104, 97, 111, 115];
    let release: Vec<u8> = vec![54u8, 46, 49, 46, 48, 45, 109, 97, 99, 104, 97, 111, 115];
    let version: Vec<u8> = vec![35u8, 49, 32, 83, 77, 80];
    let machine: Vec<u8> = vec![120u8, 56, 54, 95, 54, 52];
    let domain: Vec<u8> = Vec::new();
    push_field(&mut out, &sysname);
    push_field(&mut out, &nodename);
    push_field(&mut out, &release);
    push_field(&mut out, &version);
    push_field(&mut out, &machine);
    push_field(&mut out, &domain);
    proof {
        assert(sysname@ =~= seq![76u8, 105, 110, 117, 120]);
        assert(nodename@ =~= seq![109u8, 97, 99, 104, 97, 111, 115]);
        assert(release@ =~= seq![54u8, 46, 49, 46, 48, 45, 109, 97, 99, 104, 97, 111, 115]);
        assert(version@ =~= seq![35u8, 49, 32, 83, 77, 80]);
        assert(machine@ =~= seq![120u8, 56, 54, 95, 54, 52]);
        assert(domain@ =~= Seq::<u8>::empty());
        assert(out@ =~= uname_bytes());
    }
    store(c, phys, &out);
    Action::Return(0)
}

/// The generator's state after `i` bytes.
pub open spec fn random_state(seed: u64, i: nat) -> u64
    decreases i,
{
    if i == 0 {
        seed
    } else {
        ((random_state(seed, (i - 1) as nat) * 0x9E37_79B9_7F4A_7C15 + (i - 1))
            % 0x1_0000_0000_0000_0000) as u64
    }
}

/// `n` bytes that differ enough from each other.
pub open spec fn random_fill(seed: u64, n: nat) -> Seq<u8> {
    Seq::new(n, |i: int| (random_state(seed, (i + 1) as nat) / 0x2_0000_0000 % 256) as u8)
}

/// What `getrandom` does.
pub open spec fn randomizes(a: Caller, b: Caller, buf: u64, len: u64, r: Action) -> bool {
    match at(a, buf, len) {
        None => a == b && r == Action::Return(failed(EFAULT as int)),
        Some(phys) => r == Action::Return(len) && stored(
            a,
            b,
            phys,
            random_fill(a.ticks ^ buf, len as nat),
        ),
    }
}

/// `getrandom(buf, len, flags)`. Not cryptographically random.
pub fn sys_getrandom(c: &mut Caller, buf: u64, buflen: u64) -> (r: Action)
    requires
        old(c).wf(),
    ensures
        final(c).wf(),
        randomizes(*old(c), *final(c), buf, buflen, r),
{
    let phys = match resolve(c, buf, buflen) {
        None => {
            return Action::Return(err(EFAULT));
        },
        Some(p) => p,
    };
    let mut seed = c.ticks ^ buf;
    let ghost first = seed;
    let mut out: Vec<u8> = Vec::new();
    let mut i: u64 = 0;
    while i < buflen
        invariant
            i <= buflen <= usize::MAX,
            out@.len() == i,
            seed == random_state(first, i as nat),
            out@ =~= random_fill(first, i as nat),
        decreases buflen - i,
    {
        let ghost before = seed;
        let product = seed.wrapping_mul(0x9E37_79B9_7F4A_7C15);
        seed = product.wrapping_add(i);
        proof {
            let all = before * 0x9E37_79B9_7F4A_7C15;
            vstd::arithmetic::div_mod::lemma_add_mod_noop(
                all,
                i as int,
                0x1_0000_0000_0000_0000,
            );
            vstd::arithmetic::div_mod::lemma_small_mod(i as nat, 0x1_0000_0000_0000_0000);
            assert(product == all % 0x1_0000_0000_0000_0000);
            assert(seed == (product + i) % 0x1_0000_0000_0000_0000);
        }
        out.push((seed / 0x2_0000_0000 % 256) as u8);
        i += 1;
    }
    store(c, phys, &out);
    Action::Return(buflen)
}

/// Seconds and nanoseconds since boot.
pub open spec fn time_bytes(ticks: u64) -> Seq<u8> {
    le64_bytes((ticks / 100) as u64) + le64_bytes((ticks % 100 * 10_000_000) as u64)
}

/// `clock_gettime(clockid, ts)`.
pub fn sys_clock_gettime(c: &mut Caller, ts: u64) -> (r: Action)
    requires
        old(c).wf(),
    ensures
        final(c).wf(),
        fills_only(*old(c), *final(c), ts, 16, time_bytes(old(c).ticks), r),
{
    let phys = match resolve(c, ts, 16) {
        None => {
            return Action::Return(err(EFAULT));
        },
        Some(p) => p,
    };
    let mut out: Vec<u8> = Vec::new();
    push_le64(&mut out, c.ticks / 100);
    push_le64(&mut out, c.ticks % 100 * 10_000_000);
    assert(out@ =~= time_bytes(c.ticks));
    store(c, phys, &out);
    Action::Return(0)
}

/// The command in a futex operation: the private flag does not count.
pub open spec fn futex_command(op: u64) -> int {
    if flag(op, 128) {
        op - 128
    } else {
        op as int
    }
}

/// What `futex` does.
pub open spec fn futexes(a: Caller, b: Caller, uaddr: u64, op: u64, r: Action) -> bool {
    a == b && r == Action::Return(
        if futex_command(op) == 0 {
            match at(a, uaddr, 4) {
                None => failed(EFAULT as int),
                Some(_) => 0,
            }
        } else if futex_command(op) == 1 {
            0
        } else {
            failed(ENOSYS as int)
        },
    )
}

/// `futex(uaddr, op, val, ..)` on a machine where nothing else can hold or
/// wake a lock: a wait returns at once, whether the word still is `val` or
/// not, and a wake finds nobody.
pub fn sys_futex(c: &Caller, uaddr: u64, futex_op: u64, _val: u64) -> (r: Action)
    requires
        c.wf(),
    ensures
        futexes(*c, *c, uaddr, futex_op, r),
{
    let command = if futex_op / 128 % 2 == 1 { futex_op - 128 } else { futex_op };
    if command == 0 {
        match resolve(c, uaddr, 4) {
            None => Action::Return(err(EFAULT)),
            Some(_) => Action::Return(0),
        }
    } else if command == 1 {
        Action::Return(0)
    } else {
        Action::Return(err(ENOSYS))
    }
}

/// Every limit is infinite.
pub open spec fn limit_bytes() -> Seq<u8> {
    le64_bytes(u64::MAX) + le64_bytes(u64::MAX)
}

/// What `prlimit64` does.
pub open spec fn limits(a: Caller, b: Caller, old_limit: u64, r: Action) -> bool {
    if old_limit == 0 {
        a == b && r == Action::Return(0)
    } else {
        fills_only(a, b, old_limit, 16, limit_bytes(), r)
    }
}

/// `prlimit64(pid, resource, new, old)`: every limit is unlimited.
pub fn sys_prlimit64(c: &mut Caller, old_limit: u64) -> (r: Action)
    requires
        old(c).wf(),
    ensures
        final(c).wf(),
        limits(*old(c), *final(c), old_limit, r),
{
    if old_limit == 0 {
        return Action::Return(0);
    }
    let phys = match resolve(c, old_limit, 16) {
        None => {
            return Action::Return(err(EFAULT));
        },
        Some(p) => p,
    };
    let mut out: Vec<u8> = Vec::new();
    push_le64(&mut out, u64::MAX);
    push_le64(&mut out, u64::MAX);
    assert(out@ =~= limit_bytes());
    store(c, phys, &out);
    Action::Return(0)
}

/// A set with the first CPU alone.
pub open spec fn cpu_mask(size: nat) -> Seq<u8> {
    Seq::new(
        size,
        |i: int|
            if i == 0 {
                1
            } else {
                0
            },
    )
}

/// What `sched_getaffinity` does.
pub open spec fn affinity(a: Caller, b: Caller, size: u64, mask: u64, r: Action) -> bool {
    match at(a, mask, size) {
        None => a == b && r == Action::Return(failed(EFAULT as int)),
        Some(phys) => stored(a, b, phys, cpu_mask(size as nat)) && r == Action::Return(
            if size < 8 {
                size
            } else {
                8
            },
        ),
    }
}

/// `sched_getaffinity(pid, size, mask)`: a single CPU.
pub fn sys_sched_getaffinity(c: &mut Caller, cpusetsize: u64, mask_ptr: u64) -> (r: Action)
    requires
        old(c).wf(),
    ensures
        final(c).wf(),
        affinity(*old(c), *final(c), cpusetsize, mask_ptr, r),
{
    let phys = match resolve(c, mask_ptr, cpusetsize) {
        None => {
            return Action::Return(err(EFAULT));
        },
        Some(p) => p,
    };
    let mut out: Vec<u8> = Vec::new();
    if cpusetsize >= 1 {
        out.push(1);
        push_zeros(&mut out, (cpusetsize - 1) as usize);
    }
    assert(out@ =~= cpu_mask(cpusetsize as nat));
    store(c, phys, &out);
    Action::Return(if cpusetsize < 8 { cpusetsize } else { 8 })
}

/// A `struct sysinfo`: uptime, total and free memory, and the unit.
pub open spec fn sysinfo_bytes(ticks: u64, total: u64, free: u64) -> Seq<u8> {
    le64_bytes((ticks / 100) as u64) + zeros(24) + le64_bytes(total) + le64_bytes(free) + zeros(56)
        + le32_bytes(1) + zeros(4)
}

/// `sysinfo(info)`.
pub fn sys_sysinfo(c: &mut Caller, info_ptr: u64) -> (r: Action)
    requires
        old(c).wf(),
    ensures
        final(c).wf(),
        fills_only(
            *old(c),
            *final(c),
            info_ptr,
            112,
            sysinfo_bytes(old(c).ticks, old(c).total_ram, old(c).free_ram),
            r,
        ),
{
    let phys = match resolve(c, info_ptr, 112) {
        None => {
            return Action::Return(err(EFAULT));
        },
        Some(p) => p,
    };
    let mut out: Vec<u8> = Vec::new();
    push_le64(&mut out, c.ticks / 100);
    push_zeros(&mut out, 24);
    push_le64(&mut out, c.total_ram);
    push_le64(&mut out, c.free_ram);
    push_zeros(&mut out, 56);
    push_le32(&mut out, 1);
    push_zeros(&mut out, 4);
    assert(out@ =~= sysinfo_bytes(c.ticks, c.total_ram, c.free_ram));
    store(c, phys, &out);
    Action::Return(0)
}

/// Nothing happens but that a value is returned.
pub open spec fn answers(a: Caller, b: Caller, v: u64, r: Action) -> bool {
    a == b && r == Action::Return(v)
}

/// What each system call does.
pub open spec fn dispatched(a: Caller, b: Caller, num: u64, x: Seq<u64>, r: Action) -> bool {
    if num == SYS_READ {
        reads(a, b, x[0], x[1], x[2], r)
    } else if num == SYS_WRITE {
        writes(a, b, x[0], x[1], x[2], r)
    } else if num == SYS_CLOSE {
        closes(a, b, x[0], r)
    } else if num == SYS_FSTAT {
        fstats(a, b, x[0], x[1], r)
    } else if num == SYS_LSEEK {
        seeks(a, b, x[0], x[1], x[2], r)
    } else if num == SYS_ACCESS {
        accesses(a, b, x[0], r)
    } else if num == SYS_PREAD64 {
        preads(a, b, x[0], x[1], x[2], x[3], r)
    } else if num == SYS_MMAP {
        maps(a, b, x[0], x[1], x[2], x[3], x[4], x[5], r)
    } else if num == SYS_MPROTECT {
        protects(a, b, x[0], x[1], x[2], r)
    } else if num == SYS_MUNMAP {
        unmaps(a, b, x[0], x[1], r)
    } else if num == SYS_BRK {
        breaks(a, b, x[0], r)
    } else if num == SYS_RT_SIGACTION || num == SYS_RT_SIGPROCMASK || num == SYS_SET_ROBUST_LIST {
        answers(a, b, 0, r)
    } else if num == SYS_IOCTL {
        answers(a, b, failed(ENOTTY as int), r)
    } else if num == SYS_WRITEV {
        a == b && r == Action::Vector(
            Writev { fd: x[0], iov: x[1], iovcnt: x[2], next: 0, total: 0 },
        )
    } else if num == SYS_GETPID || num == SYS_SET_TID_ADDRESS {
        answers(a, b, a.pid as u64, r)
    } else if num == SYS_UNAME {
        fills_only(a, b, x[0], 390, uname_bytes(), r)
    } else if num == SYS_ARCH_PRCTL {
        prctls(a, b, x[0], x[1], r)
    } else if num == SYS_CLOCK_GETTIME {
        fills_only(a, b, x[1], 16, time_bytes(a.ticks), r)
    } else if num == SYS_OPENAT {
        opens(a, b, x[1], x[2], r)
    } else if num == SYS_NEWFSTATAT {
        stats_at(a, b, x[0], x[1], x[2], x[3], r)
    } else if num == SYS_GETRANDOM {
        randomizes(a, b, x[0], x[1], r)
    } else if num == SYS_FUTEX {
        futexes(a, b, x[0], x[1], r)
    } else if num == SYS_RSEQ {
        answers(a, b, failed(EINVAL as int), r)
    } else if num == SYS_PRLIMIT64 {
        limits(a, b, x[3], r)
    } else if num == SYS_SCHED_GETAFFINITY {
        affinity(a, b, x[1], x[2], r)
    } else if num == SYS_SYSINFO {
        fills_only(a, b, x[0], 112, sysinfo_bytes(a.ticks, a.total_ram, a.free_ram), r)
    } else if num == SYS_MEMFD_CREATE {
        a == b && r == Action::NewShm
    } else if num == SYS_FTRUNCATE {
        truncates(a, b, x[0], x[1], r)
    } else if num == SYS_SOCKET {
        sockets(a, b, x[0], x[1], r)
    } else if num == SYS_CONNECT {
        connects(a, b, x[0], x[1], x[2], r)
    } else if num == SYS_SENDMSG {
        sends(a, b, x[0], x[1], r)
    } else if num == SYS_RECVMSG {
        receives(a, b, x[0], x[1], r)
    } else {
        a == b && r == Action::Unknown(num)
    }
}

/// Dispatches one Linux-numbered syscall.
pub fn syscall_dispatch(c: &mut Caller, num: u64, args: &[u64; 6]) -> (r: Action)
    requires
        old(c).wf(),
    ensures
        final(c).wf(),
        dispatched(*old(c), *final(c), num, args@, r),
{
    let (a1, a2, a3) = (args[0], args[1], args[2]);
    let (a4, a5, a6) = (args[3], args[4], args[5]);
    if num == SYS_READ {
        sys_read(c, a1, a2, a3)
    } else if num == SYS_WRITE {
        sys_write(c, a1, a2, a3)
    } else if num == SYS_CLOSE {
        sys_close(c, a1)
    } else if num == SYS_FSTAT {
        sys_fstat(c, a1, a2)
    } else if num == SYS_LSEEK {
        sys_lseek(c, a1, a2, a3)
    } else if num == SYS_ACCESS {
        sys_access(c, a1)
    } else if num == SYS_PREAD64 {
        sys_pread64(c, a1, a2, a3, a4)
    } else if num == SYS_MMAP {
        sys_mmap(c, a1, a2, a3, a4, a5, a6)
    } else if num == SYS_MPROTECT {
        sys_mprotect(c, a1, a2, a3)
    } else if num == SYS_MUNMAP {
        sys_munmap(c, a1, a2)
    } else if num == SYS_BRK {
        sys_brk(c, a1)
    } else if num == SYS_RT_SIGACTION || num == SYS_RT_SIGPROCMASK || num == SYS_SET_ROBUST_LIST {
        Action::Return(0)
    } else if num == SYS_IOCTL {
        Action::Return(err(ENOTTY))
    } else if num == SYS_WRITEV {
        Action::Vector(Writev { fd: a1, iov: a2, iovcnt: a3, next: 0, total: 0 })
    } else if num == SYS_GETPID || num == SYS_SET_TID_ADDRESS {
        Action::Return(c.pid as u64)
    } else if num == SYS_UNAME {
        sys_uname(c, a1)
    } else if num == SYS_ARCH_PRCTL {
        sys_arch_prctl(c, a1, a2)
    } else if num == SYS_CLOCK_GETTIME {
        sys_clock_gettime(c, a2)
    } else if num == SYS_OPENAT {
        sys_openat(c, a2, a3)
    } else if num == SYS_NEWFSTATAT {
        sys_newfstatat(c, a1, a2, a3, a4)
    } else if num == SYS_GETRANDOM {
        sys_getrandom(c, a1, a2)
    } else if num == SYS_FUTEX {
        sys_futex(c, a1, a2, a3)
    } else if num == SYS_RSEQ {
        Action::Return(err(EINVAL))
    } else if num == SYS_PRLIMIT64 {
        sys_prlimit64(c, a4)
    } else if num == SYS_SCHED_GETAFFINITY {
        sys_sched_getaffinity(c, a2, a3)
    } else if num == SYS_SYSINFO {
        sys_sysinfo(c, a1)
    } else if num == SYS_MEMFD_CREATE {
        Action::NewShm
    } else if num == SYS_FTRUNCATE {
        sys_ftruncate(c, a1, a2)
    } else if num == SYS_SOCKET {
        sys_socket(c, a1, a2)
    } else if num == SYS_CONNECT {
        sys_connect(c, a1, a2, a3)
    } else if num == SYS_SENDMSG {
        sys_sendmsg(c, a1, a2)
    } else if num == SYS_RECVMSG {
        sys_recvmsg(c, a1, a2)
    } else {
        Action::Unknown(num)
    }
}

/// Bytes written to a shared-memory object through its fd are what a read
/// gives back, into any buffer, after a seek to where the write began.
pub proof fn law_shared_memory_read_after_write(
    a: Caller,
    b: Caller,
    c: Caller,
    d: Caller,
    fd: u64,
    src: u64,
    dst: u64,
    count: u64,
    write: Action,
    seek: Action,
    read: Action,
)
    requires
        a.wf(),
        fd >= 3,
        target(a, fd) is Shm,
        target(a, fd)->Shm_1 <= i64::MAX,
        at(a, src, count) is Some,
        at(a, dst, count) is Some,
        writes(a, b, fd, src, count, write),
        seeks(b, c, fd, target(a, fd)->Shm_1, 0, seek),
        reads(c, d, fd, dst, count, read),
    ensures
        read == write,
        write matches Action::Return(n) && n <= count && held(d, at(a, dst, count)->0, n) == held(
            a,
            at(a, src, count)->0,
            n,
        ),
{
    let from = at(a, src, count)->0;
    let to = at(a, dst, count)->0;
    let id = target(a, fd)->Shm_0;
    let cursor = target(a, fd)->Shm_1;
    let n = shm_count(object(a, id), cursor, count);
    let total = a.memory@.len() as int;
    lemma_translated_fits(a.process.mappings@, a.process.mappings@.len(), src, count, total);
    lemma_translated_fits(a.process.mappings@, a.process.mappings@.len(), dst, count, total);
    assert(at(c, dst, count) == Some(to));
    assert(target(c, fd) == Target::Shm(id, cursor));
    assert(object(c, id) == object(a, id));
    if n == 0 {
        assert(held(d, to, n) =~= held(a, from, n));
    } else {
        let home = (object(a, id)->0.phys + cursor) as u64;
        assert(a.shm@[id as int] is Some);
        assert(held(c, home, n) =~= held(a, from, n));
        assert(held(d, to, n) =~= held(c, home, n));
    }
}

} // verus!
