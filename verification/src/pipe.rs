//! POSIX pipes (`pipe2`): a fixed-size in-memory ring buffer with
//! independent read/write ends, shared by reference count across
//! `fork`. The ends are counted separately so a reader sees EOF (read
//! returns 0) only once every write end is closed, and a write to a pipe
//! whose readers are all gone returns 0.
//!
//! A read on an empty pipe with writers alive, and a write to a full pipe
//! with readers alive, have to wait: they report the key to sleep on. The
//! key is tagged with bit 63 so it can never collide with a futex key.

use vstd::prelude::*;

verus! {

pub const PIPE_BUF_SIZE: usize = 65536;

const PIPE_WAKE_TAG: u64 = 0x8000_0000_0000_0000;

pub struct Pipe {
    buf: Vec<u8>,
    /// Ring-buffer positions; `wr == rd` means empty, one slot is kept
    /// unused to tell "full" apart from "empty".
    rd: usize,
    wr: usize,
    /// Number of open read ends / write ends.
    readers: usize,
    writers: usize,
}

/// A pipe as a queue of bytes with its counts of open ends.
pub struct Channel {
    pub queue: Seq<u8>,
    pub readers: nat,
    pub writers: nat,
}

impl Pipe {
    pub closed spec fn wf(&self) -> bool {
        &&& self.buf@.len() == 65536
        &&& self.rd < 65536
        &&& self.wr < 65536
    }

    spec fn used(&self) -> int {
        if self.wr >= self.rd {
            self.wr - self.rd
        } else {
            self.wr + 65536 - self.rd
        }
    }

    /// Moves the first `n` buffered bytes to the front of `out`.
    fn take(&mut self, out: &mut Vec<u8>, n: usize)
        requires
            old(self).wf(),
            n <= old(self)@.queue.len(),
            n <= old(out).len(),
        ensures
            final(self).wf(),
            final(self)@ == drained(old(self)@, n as nat),
            final(out)@ == old(self)@.queue.take(n as int) + old(out)@.skip(n as int),
    {
        let ghost q = self@.queue;
        let mut i: usize = 0;
        while i < n
            invariant
                i <= n <= q.len() < 65536,
                n <= out.len(),
                self.wf(),
                *self == *old(self),
                q == self@.queue,
                out@.len() == old(out)@.len(),
                out@ =~= q.take(i as int) + old(out)@.skip(i as int),
            decreases n - i,
        {
            let at = (self.rd + i) % PIPE_BUF_SIZE;
            assert(at == slot(self.rd as int, i as int));
            assert(self.buf@[at as int] == q[i as int]);
            out.set(i, self.buf[at]);
            i += 1;
        }
        self.rd = (self.rd + n) % PIPE_BUF_SIZE;
        assert(self.rd == slot(old(self).rd as int, n as int));
        assert(self@.queue =~= q.skip(n as int));
    }

    /// Buffers the first `n` bytes of `data`.
    fn put(&mut self, data: &[u8], n: usize)
        requires
            old(self).wf(),
            n + old(self)@.queue.len() <= 65535,
            n <= data.len(),
        ensures
            final(self).wf(),
            final(self)@ == appended(old(self)@, data@.take(n as int)),
    {
        let ghost before = *self;
        let ghost used = self.used();
        let mut i: usize = 0;
        while i < n
            invariant
                i <= n,
                n + used <= 65535,
                n <= data.len(),
                before.wf(),
                self.wf(),
                used == before.used(),
                self.rd == before.rd,
                self.wr == before.wr,
                self.readers == before.readers,
                self.writers == before.writers,
                forall|k: int|
                    0 <= k < used ==> self.buf@[slot(before.rd as int, k)]
                        == #[trigger] before.buf@[slot(before.rd as int, k)],
                forall|k: int|
                    0 <= k < i ==> #[trigger] data@[k] == self.buf@[slot(before.wr as int, k)],
            decreases n - i,
        {
            let at = (self.wr + i) % PIPE_BUF_SIZE;
            assert(at == slot(before.wr as int, i as int));
            self.buf.set(at, data[i]);
            i += 1;
        }
        self.wr = (self.wr + n) % PIPE_BUF_SIZE;
        proof {
            let all = before@.queue + data@.take(n as int);
            assert(self.wr == slot(before.wr as int, n as int));
            assert(self.used() == used + n);
            assert forall|k: int| 0 <= k < used + n implies self@.queue[k] == all[k] by {
                if k < used {
                    assert(before.buf@[slot(before.rd as int, k)] == before@.queue[k]);
                } else {
                    let j = k - used;
                    assert(data@[j] == self.buf@[slot(before.wr as int, j)]);
                    assert(slot(before.rd as int, k) == slot(before.wr as int, j));
                }
            }
            assert(self@.queue =~= all);
        }
    }
}

/// The ring position `k` places after `start`.
spec fn slot(start: int, k: int) -> int {
    if start + k < 65536 {
        start + k
    } else {
        start + k - 65536
    }
}

impl View for Pipe {
    type V = Channel;

    closed spec fn view(&self) -> Channel {
        Channel {
            queue: Seq::new(
                self.used() as nat,
                |i: int| self.buf@[slot(self.rd as int, i)],
            ),
            readers: self.readers as nat,
            writers: self.writers as nat,
        }
    }
}

/// All pipes, indexed by id; a slot is vacated once both ends are gone.
pub struct Pipes {
    table: Vec<Option<Pipe>>,
}

impl Pipes {
    pub closed spec fn wf(&self) -> bool {
        forall|i: int| 0 <= i < self.table@.len() ==> (#[trigger] self.table@[i] matches Some(p) ==> p.wf())
    }

    /// An empty table.
    pub fn new() -> (r: Self)
        ensures
            r.wf(),
            r@ == Seq::<Option<Channel>>::empty(),
    {
        let r = Pipes { table: Vec::new() };
        assert(r@ =~= Seq::<Option<Channel>>::empty());
        r
    }

    fn slot(&self, id: usize) -> (r: Option<&Pipe>)
        requires
            self.wf(),
        ensures
            match channel(self@, id) {
                Some(c) => r is Some && r->0@ == c && r->0.wf() && id < self.table@.len()
                    && self.table@[id as int] == Some(*r->0),
                None => r is None,
            },
    {
        if id < self.table.len() {
            self.table[id].as_ref()
        } else {
            None
        }
    }
}

impl View for Pipes {
    type V = Seq<Option<Channel>>;

    closed spec fn view(&self) -> Seq<Option<Channel>> {
        self.table@.map_values(
            |p: Option<Pipe>|
                match p {
                    Some(p) => Some(p@),
                    None => None,
                },
        )
    }
}

/// The live pipe with this id, if there is one.
pub open spec fn channel(pipes: Seq<Option<Channel>>, id: usize) -> Option<Channel> {
    if id < pipes.len() {
        pipes[id as int]
    } else {
        None
    }
}

/// What came of an attempt to move bytes.
#[derive(Clone, Copy, Debug, PartialEq, Eq, Structural)]
pub enum Transfer {
    /// Nothing can move any more: end of file, or no reader is left.
    Closed,
    /// So many bytes moved; every task asleep on `wake` should run again.
    Moved { count: usize, wake: u64 },
    /// The caller has to sleep on `key` and try again.
    Wait { key: u64 },
}

/// The wait-queue key of a pipe.
pub open spec fn key_of(id: usize) -> u64 {
    0x8000_0000_0000_0000u64 | id as u64
}

/// The bytes a read of at most `room` bytes takes out.
pub open spec fn read_count(c: Channel, room: nat) -> nat {
    if c.queue.len() < room {
        c.queue.len()
    } else {
        room
    }
}

/// The bytes of `len` offered that a write takes in.
pub open spec fn write_count(c: Channel, len: nat) -> nat {
    let space = (65535 - c.queue.len()) as nat;
    if space < len {
        space
    } else {
        len
    }
}

/// The pipe after its first `n` bytes were read.
pub open spec fn drained(c: Channel, n: nat) -> Channel {
    Channel { queue: c.queue.skip(n as int), ..c }
}

/// The pipe after `data` was appended.
pub open spec fn appended(c: Channel, data: Seq<u8>) -> Channel {
    Channel { queue: c.queue + data, ..c }
}

/// What a read of at most `room` bytes comes to.
pub open spec fn read_outcome(c: Option<Channel>, id: usize, room: nat) -> Transfer {
    match c {
        None => Transfer::Closed,
        Some(c) => if c.queue.len() > 0 {
            Transfer::Moved { count: read_count(c, room) as usize, wake: key_of(id) }
        } else if c.writers == 0 {
            Transfer::Closed
        } else {
            Transfer::Wait { key: key_of(id) }
        },
    }
}

/// What a write of `len` bytes comes to.
pub open spec fn write_outcome(c: Option<Channel>, id: usize, len: nat) -> Transfer {
    match c {
        None => Transfer::Closed,
        Some(c) => if c.readers == 0 {
            Transfer::Closed
        } else if c.queue.len() == 65535 {
            Transfer::Wait { key: key_of(id) }
        } else {
            Transfer::Moved { count: write_count(c, len) as usize, wake: key_of(id) }
        },
    }
}

fn pipe_key(id: usize) -> (r: u64)
    ensures
        r == key_of(id),
{
    PIPE_WAKE_TAG | id as u64
}

/// Creates a pipe; returns its id. The caller installs the read and
/// write ends as two fds.
pub fn create(pipes: &mut Pipes) -> (id: usize)
    requires
        old(pipes).wf(),
    ensures
        final(pipes).wf(),
        id == old(pipes)@.len(),
        final(pipes)@ == old(pipes)@.push(
            Some(Channel { queue: Seq::empty(), readers: 1, writers: 1 }),
        ),
{
    let mut buf: Vec<u8> = Vec::new();
    buf.resize(PIPE_BUF_SIZE, 0);
    let p = Pipe { buf, rd: 0, wr: 0, readers: 1, writers: 1 };
    assert(p@.queue =~= Seq::<u8>::empty());
    pipes.table.push(Some(p));
    assert(pipes@ =~= old(pipes)@.push(
        Some(Channel { queue: Seq::empty(), readers: 1, writers: 1 }),
    ));
    pipes.table.len() - 1
}

/// One more reference to `is_read`'s end (fork/dup of that fd).
pub fn dup_end(pipes: &mut Pipes, id: usize, is_read: bool)
    requires
        old(pipes).wf(),
        channel(old(pipes)@, id) matches Some(c) ==> c.readers < usize::MAX && c.writers
            < usize::MAX,
    ensures
        final(pipes).wf(),
        match channel(old(pipes)@, id) {
            None => final(pipes)@ == old(pipes)@,
            Some(c) => final(pipes)@ == old(pipes)@.update(
                id as int,
                Some(
                    if is_read {
                        Channel { readers: c.readers + 1, ..c }
                    } else {
                        Channel { writers: c.writers + 1, ..c }
                    },
                ),
            ),
        },
{
    if id < pipes.table.len() {
        let ghost before = pipes.table@[id as int];
        if let Some(p) = &mut pipes.table[id] {
            if is_read {
                p.readers += 1;
            } else {
                p.writers += 1;
            }
        }
        proof {
            if before is Some {
                let c = before->0@;
                let after = pipes.table@[id as int]->0;
                assert(after@.queue =~= c.queue);
            }
            match channel(old(pipes)@, id) {
                None => {
                    assert(pipes@ =~= old(pipes)@);
                },
                Some(c) => {
                    assert(pipes@ =~= old(pipes)@.update(id as int, pipes@[id as int]));
                },
            }
        }
    }
}

/// The count after one end is closed.
pub open spec fn one_less(n: nat) -> nat {
    if n > 0 {
        (n - 1) as nat
    } else {
        0
    }
}

/// A pipe after one of its ends is closed; nothing is left of it once
/// both kinds of ends are gone.
pub open spec fn closed_end(c: Channel, is_read: bool) -> Option<Channel> {
    let readers = if is_read { one_less(c.readers) } else { c.readers };
    let writers = if is_read { c.writers } else { one_less(c.writers) };
    if readers == 0 && writers == 0 {
        None
    } else {
        Some(Channel { queue: c.queue, readers, writers })
    }
}

/// Drops one reference to `is_read`'s end; frees the pipe once both
/// ends are gone.
pub fn close_end(pipes: &mut Pipes, id: usize, is_read: bool)
    requires
        old(pipes).wf(),
    ensures
        final(pipes).wf(),
        match channel(old(pipes)@, id) {
            None => final(pipes)@ == old(pipes)@,
            Some(c) => final(pipes)@ == old(pipes)@.update(id as int, closed_end(c, is_read)),
        },
{
    if id < pipes.table.len() {
        let ghost before = pipes.table@[id as int];
        let mut gone = false;
        if let Some(p) = &mut pipes.table[id] {
            if is_read {
                p.readers = p.readers.saturating_sub(1);
            } else {
                p.writers = p.writers.saturating_sub(1);
            }
            gone = p.readers == 0 && p.writers == 0;
        }
        let ghost middle = pipes.table@[id as int];
        if gone {
            pipes.table[id] = None;
        }
        proof {
            if before is Some {
                assert(middle->0@.queue =~= before->0@.queue);
            }
            match channel(old(pipes)@, id) {
                None => {
                    assert(pipes@ =~= old(pipes)@);
                },
                Some(c) => {
                    assert(pipes@ =~= old(pipes)@.update(id as int, closed_end(c, is_read)));
                },
            }
        }
    }
}

/// The number of bytes currently buffered (for diagnostics).
pub fn buffered(pipes: &Pipes, id: usize) -> (r: usize)
    requires
        pipes.wf(),
    ensures
        r == match channel(pipes@, id) {
            Some(c) => c.queue.len(),
            None => 0,
        },
{
    match pipes.slot(id) {
        Some(p) => (p.wr + PIPE_BUF_SIZE - p.rd) % PIPE_BUF_SIZE,
        None => 0,
    }
}

/// True if a read on the pipe would make progress (poll POLLIN): data is
/// buffered, or the pipe is empty with no writers left (EOF). A vanished
/// pipe reads as EOF too.
pub fn read_ready(pipes: &Pipes, id: usize) -> (r: bool)
    requires
        pipes.wf(),
    ensures
        r == match channel(pipes@, id) {
            None => true,
            Some(c) => c.queue.len() > 0 || c.writers == 0,
        },
{
    match pipes.slot(id) {
        None => true,
        Some(p) => p.rd != p.wr || p.writers == 0,
    }
}

/// True if a write to the pipe would make progress (poll POLLOUT): the
/// buffer isn't full.
pub fn write_ready(pipes: &Pipes, id: usize) -> (r: bool)
    requires
        pipes.wf(),
    ensures
        r == match channel(pipes@, id) {
            None => false,
            Some(c) => c.queue.len() < 65535,
        },
{
    match pipes.slot(id) {
        None => false,
        Some(p) => (p.rd + PIPE_BUF_SIZE - p.wr + PIPE_BUF_SIZE - 1) % PIPE_BUF_SIZE != 0,
    }
}

/// True if the write end has no readers left (poll POLLERR): the writer
/// would get EPIPE/SIGPIPE.
pub fn no_readers(pipes: &Pipes, id: usize) -> (r: bool)
    requires
        pipes.wf(),
    ensures
        r == match channel(pipes@, id) {
            None => true,
            Some(c) => c.readers == 0,
        },
{
    match pipes.slot(id) {
        None => true,
        Some(p) => p.readers == 0,
    }
}

/// Reads up to `out.len()` bytes from the pipe. Waits while the pipe
/// is empty and a write end is still open; the pipe is closed to reading
/// on EOF (empty, no writers) or once it vanished. Wakes any writer waiting
/// on a full pipe once space is freed.
pub fn read(pipes: &mut Pipes, id: usize, out: &mut Vec<u8>) -> (r: Transfer)
    requires
        old(pipes).wf(),
    ensures
        final(pipes).wf(),
        r == read_outcome(channel(old(pipes)@, id), id, old(out)@.len()),
        match r {
            Transfer::Moved { count, .. } => {
                let c = channel(old(pipes)@, id)->0;
                &&& final(out)@ == c.queue.take(count as int) + old(out)@.skip(count as int)
                &&& final(pipes)@ == old(pipes)@.update(
                    id as int,
                    Some(drained(c, count as nat)),
                )
            },
            _ => final(pipes)@ == old(pipes)@ && final(out)@ == old(out)@,
        },
{
    let avail: usize = match pipes.slot(id) {
        None => {
            return Transfer::Closed;
        },
        Some(p) => {
            if p.rd == p.wr && p.writers == 0 {
                return Transfer::Closed;
            }
            (p.wr + PIPE_BUF_SIZE - p.rd) % PIPE_BUF_SIZE
        },
    };
    if avail == 0 {
        return Transfer::Wait { key: pipe_key(id) };
    }
    let n: usize = if avail < out.len() { avail } else { out.len() };
    let ghost c = channel(old(pipes)@, id)->0;
    if let Some(p) = &mut pipes.table[id] {
        p.take(out, n);
    }
    assert(pipes@ =~= old(pipes)@.update(id as int, Some(drained(c, n as nat))));
    Transfer::Moved { count: n, wake: pipe_key(id) }
}

/// Appends `data` to the pipe, waiting while full and a read end is
/// still open. The pipe is closed to writing if every read end is closed
/// or it vanished. Wakes any reader waiting on an empty pipe.
pub fn write(pipes: &mut Pipes, id: usize, data: &[u8]) -> (r: Transfer)
    requires
        old(pipes).wf(),
    ensures
        final(pipes).wf(),
        r == write_outcome(channel(old(pipes)@, id), id, data@.len()),
        match r {
            Transfer::Moved { count, .. } => final(pipes)@ == old(pipes)@.update(
                id as int,
                Some(appended(channel(old(pipes)@, id)->0, data@.take(count as int))),
            ),
            _ => final(pipes)@ == old(pipes)@,
        },
{
    let space: usize = match pipes.slot(id) {
        None => {
            return Transfer::Closed;
        },
        Some(p) => {
            if p.readers == 0 {
                return Transfer::Closed;
            }
            PIPE_BUF_SIZE - 1 - (p.wr + PIPE_BUF_SIZE - p.rd) % PIPE_BUF_SIZE
        },
    };
    if space == 0 {
        return Transfer::Wait { key: pipe_key(id) };
    }
    let n: usize = if space < data.len() { space } else { data.len() };
    let ghost c = channel(old(pipes)@, id)->0;
    if let Some(p) = &mut pipes.table[id] {
        p.put(data, n);
    }
    assert(pipes@ =~= old(pipes)@.update(id as int, Some(appended(c, data@.take(n as int)))));
    Transfer::Moved { count: n, wake: pipe_key(id) }
}

/// Bytes come out of a pipe in the order in which they went in: after a
/// write, reading past what was queued before gives the bytes written.
pub proof fn law_first_in_first_out(c: Channel, data: Seq<u8>)
    requires
        c.queue.len() + data.len() <= 65535,
    ensures
        ({
            let after = appended(c, data);
            let rest = drained(after, c.queue.len());
            &&& write_count(c, data.len()) == data.len()
            &&& after.queue.take(c.queue.len() as int) == c.queue
            &&& rest.queue.take(read_count(rest, data.len()) as int) == data
            &&& drained(rest, data.len()).queue.len() == 0
        }),
{
    let after = appended(c, data);
    let rest = drained(after, c.queue.len());
    assert(after.queue.take(c.queue.len() as int) =~= c.queue);
    assert(rest.queue =~= data);
    assert(rest.queue.take(data.len() as int) =~= data);
}

/// A reader sees end of file only once the pipe is empty and every write
/// end is closed, and then never waits.
pub proof fn law_end_of_file(c: Channel, id: usize, room: nat)
    ensures
        read_outcome(Some(c), id, room) == Transfer::Closed <==> c.queue.len() == 0 && c.writers
            == 0,
        (read_outcome(Some(c), id, room) is Wait) <==> c.queue.len() == 0 && c.writers > 0,
{
}

/// The wait-queue keys of two pipes differ, and each has bit 63 set.
pub proof fn law_keys_are_tagged(a: usize, b: usize)
    requires
        a < 0x8000_0000_0000_0000,
        b < 0x8000_0000_0000_0000,
        a != b,
    ensures
        key_of(a) != key_of(b),
        key_of(a) >= 0x8000_0000_0000_0000,
{
    let x = a as u64;
    let y = b as u64;
    assert(x < 0x8000_0000_0000_0000 && y < 0x8000_0000_0000_0000 && x != y ==> (
    0x8000_0000_0000_0000u64 | x) != (0x8000_0000_0000_0000u64 | y) && (
    0x8000_0000_0000_0000u64 | x) >= 0x8000_0000_0000_0000) by (bit_vector);
}

} // verus!
