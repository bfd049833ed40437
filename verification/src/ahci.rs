//! AHCI (SATA) driver for an Intel ICH9 controller: the bring-up of port 0,
//! the command headers and tables it is given, what its answers mean, and
//! how a transfer is cut into commands. Polled, no interrupts.

use crate::ata::{model_bytes, model_text, shown_model, trimmed_len, Drive};
use crate::bytes::{copy_into, le32_bytes, le64_bytes, push_le32, push_le64, splice};
use crate::pci::{find_device, Bus};
use crate::text::{chars_of, dec, lossy, push_dec, push_str, string_of};
use vstd::prelude::*;
use vstd::slice::slice_subrange;
use vstd::utf8::{decode_utf8, valid_utf8};

verus! {

pub const VENDOR_INTEL: u16 = 0x8086;

pub const DEV_ICH9_AHCI: u16 = 0x2922;

pub const HBA_GHC: u32 = 0x04;

pub const HBA_PI: u32 = 0x0C;

/// Global control: AHCI enable, and reset.
pub const GHC_AE: u32 = 0x8000_0000;

pub const GHC_HR: u32 = 1;

/// Registers of port 0.
pub const PORT_CLB: u32 = 0x100;

pub const PORT_FB: u32 = 0x108;

pub const PORT_IS: u32 = 0x110;

pub const PORT_IE: u32 = 0x114;

pub const PORT_CMD: u32 = 0x118;

pub const PORT_TFD: u32 = 0x120;

pub const PORT_SSTS: u32 = 0x128;

pub const PORT_CI: u32 = 0x138;

pub const CMD_IDENTIFY: u8 = 0xEC;

pub const CMD_READ_DMA_EXT: u8 = 0x25;

pub const CMD_WRITE_DMA_EXT: u8 = 0x35;

/// Max sectors per command.
pub const MAX_CHUNK_SECTORS: usize = 128;

/// How often a register is polled before giving up.
pub const SPIN_LIMIT: u32 = 20_000_000;

/// A port: whether it has a drive, and the physical addresses of its command
/// list, command table, FIS receive area and identify buffer.
#[derive(Clone, Copy, Debug, PartialEq, Eq, Structural)]
pub struct AhciPort {
    pub present: bool,
    pub clb: u32,
    pub ct: u32,
    pub fb: u32,
    pub buf: u32,
}

/// The drive on port 0, and the sectors on it.
pub struct Ahci {
    pub port: AhciPort,
    pub sectors: u64,
    pub model: [u8; 40],
    pub media: Vec<u8>,
}

impl View for Ahci {
    type V = Drive;

    open spec fn view(&self) -> Drive {
        Drive { sata: true, usable: self.port.present, media: self.media@ }
    }
}

// ---------------------------------------------------------------------
// Commands
// ---------------------------------------------------------------------

/// A command for slot 0: the header's four words, and the command table.
pub struct Issue {
    pub header: [u32; 4],
    pub table: Vec<u8>,
}

/// The header: five words of command FIS, the direction, one data region,
/// and where the table is.
pub open spec fn header_words(ct: u32, write: bool) -> Seq<u32> {
    seq![
        (5 + (if write {
            64int
        } else {
            0
        }) + 0x1_0000) as u32,
        0u32,
        ct,
        0u32,
    ]
}

/// How many bytes a command moves.
pub open spec fn moved_bytes(cmd: u8, count: u16) -> int {
    if cmd == CMD_IDENTIFY {
        512
    } else {
        count * 512
    }
}

pub open spec fn zeros(n: nat) -> Seq<u8> {
    Seq::new(n, |i: int| 0u8)
}

/// Byte `i` of a 48-bit sector number.
pub open spec fn lba_byte(lba: u64, i: nat) -> u8 {
    le64_bytes(lba)[i as int]
}

/// The host-to-device register FIS.
pub open spec fn fis_bytes(cmd: u8, lba: u64, count: u16) -> Seq<u8> {
    seq![
        0x27u8,
        0x80u8,
        cmd,
        0u8,
        lba_byte(lba, 0),
        lba_byte(lba, 1),
        lba_byte(lba, 2),
        0x40u8,
        lba_byte(lba, 3),
        lba_byte(lba, 4),
        lba_byte(lba, 5),
        0u8,
        (count % 256) as u8,
        (count / 256) as u8,
    ]
}

/// The command table: the FIS, and at offset 128 the one data region, whose
/// length is stored less one.
pub open spec fn table_bytes(cmd: u8, lba: u64, count: u16, buf: u64) -> Seq<u8> {
    fis_bytes(cmd, lba, count) + zeros(114) + le64_bytes(buf) + le32_bytes(0) + le32_bytes(
        ((moved_bytes(cmd, count) - 1) % 0x40_0000) as u32,
    ) + zeros(368)
}

fn push_zeros(out: &mut Vec<u8>, n: usize)
    ensures
        final(out)@ == old(out)@ + zeros(n as nat),
{
    let mut i: usize = 0;
    assert(out@ =~= old(out)@ + zeros(0));
    while i < n
        invariant
            i <= n,
            out@ == old(out)@ + zeros(i as nat),
        decreases n - i,
    {
        out.push(0);
        i += 1;
        assert(out@ =~= old(out)@ + zeros(i as nat));
    }
}

/// Whether a word of status bits shows the port busy, waiting for data or
/// in error.
pub open spec fn task_file_bad(tfd: u32) -> bool {
    tfd % 2 == 1 || tfd / 8 % 2 == 1 || tfd / 128 % 2 == 1
}

/// What a completed command's registers say.
pub open spec fn completion(tfd: u32, is: u32) -> Result<(), &'static str> {
    if task_file_bad(tfd) {
        Err("AHCI task file error")
    } else if is / 0x4000_0000 % 2 == 1 {
        Err("AHCI task file error status")
    } else {
        Ok(())
    }
}

/// What to do while a command runs.
#[derive(Clone, Copy, Debug)]
pub enum Poll {
    /// Read the register again.
    Again,
    /// The command is through: look at the outcome.
    Completed,
    Failed(&'static str),
}

impl Ahci {
    /// Builds one command for port 0's slot 0: `cmd` with a 48-bit sector
    /// number and count, moving data to or from `buf`.
    pub fn command(&self, cmd: u8, lba: u64, count: u16, buf: u64, write: bool) -> (r: Result<
        Issue,
        &'static str,
    >)
        requires
            cmd == CMD_IDENTIFY || count > 0,
        ensures
            if self.port.present {
                r matches Ok(i) && i.header@ == header_words(self.port.ct, write) && i.table@
                    == table_bytes(cmd, lba, count, buf)
            } else {
                r == Err::<Issue, &'static str>("AHCI port 0 has no device")
            },
    {
        if !self.port.present {
            return Err("AHCI port 0 has no device");
        }
        let bytes: u32 = if cmd == CMD_IDENTIFY { 512 } else { count as u32 * 512 };
        let header = [5 + (if write { 64 } else { 0 }) + 0x1_0000, 0, self.port.ct, 0];
        let mut lb: Vec<u8> = Vec::new();
        push_le64(&mut lb, lba);
        assert(lb@ =~= le64_bytes(lba));
        let mut t: Vec<u8> = Vec::new();
        t.push(0x27);
        t.push(0x80);
        t.push(cmd);
        t.push(0);
        t.push(lb[0]);
        t.push(lb[1]);
        t.push(lb[2]);
        t.push(0x40);
        t.push(lb[3]);
        t.push(lb[4]);
        t.push(lb[5]);
        t.push(0);
        t.push((count % 256) as u8);
        t.push((count / 256) as u8);
        assert(t@ =~= fis_bytes(cmd, lba, count));
        push_zeros(&mut t, 114);
        push_le64(&mut t, buf);
        push_le32(&mut t, 0);
        push_le32(&mut t, (bytes - 1) % 0x40_0000);
        push_zeros(&mut t, 368);
        assert(t@ =~= table_bytes(cmd, lba, count, buf));
        assert(header@ =~= header_words(self.port.ct, write));
        Ok(Issue { header, table: t })
    }
}

/// One look at the command-issue register after `spins` fruitless ones: the
/// port clears bit 0 when the command is through.
pub fn poll_command(ci: u32, spins: u32) -> (r: Poll)
    requires
        spins < u32::MAX,
    ensures
        r == if ci % 2 == 0 {
            Poll::Completed
        } else if spins + 1 > SPIN_LIMIT {
            Poll::Failed("AHCI command timeout")
        } else {
            Poll::Again
        },
{
    if ci % 2 == 0 {
        Poll::Completed
    } else if spins + 1 > SPIN_LIMIT {
        Poll::Failed("AHCI command timeout")
    } else {
        Poll::Again
    }
}

/// The outcome of a completed command, by the task file and the interrupt
/// status. A reported error status (the second message) is to be cleared by
/// writing its bit back.
pub fn command_outcome(tfd: u32, is: u32) -> (r: Result<(), &'static str>)
    ensures
        r == completion(tfd, is),
{
    if tfd % 2 == 1 || tfd / 8 % 2 == 1 || tfd / 128 % 2 == 1 {
        Err("AHCI task file error")
    } else if is / 0x4000_0000 % 2 == 1 {
        Err("AHCI task file error status")
    } else {
        Ok(())
    }
}

// ---------------------------------------------------------------------
// Identify
// ---------------------------------------------------------------------

/// The capacity in the identify words: that for 48-bit sector numbers, else
/// that for 28 bits.
pub open spec fn capacity(words: Seq<u16>) -> u64 {
    let big = words[103] * 0x1_0000_0000_0000 + words[102] * 0x1_0000_0000 + words[101] * 0x1_0000
        + words[100];
    if big != 0 {
        big as u64
    } else {
        (words[61] * 0x1_0000 + words[60]) as u64
    }
}

impl Ahci {
    /// Fills in capacity and model from the 256 identify words.
    pub fn identify(&mut self, words: &Vec<u16>)
        requires
            words@.len() == 256,
        ensures
            final(self).sectors == capacity(words@),
            final(self).model@ == model_bytes(words@),
            final(self)@ == old(self)@,
            final(self).port == old(self).port,
    {
        let big = words[103] as u64 * 0x1_0000_0000_0000 + words[102] as u64 * 0x1_0000_0000
            + words[101] as u64 * 0x1_0000 + words[100] as u64;
        self.sectors = if big != 0 {
            big
        } else {
            words[61] as u64 * 0x1_0000 + words[60] as u64
        };
        let mut model = [0u8; 40];
        let mut i: usize = 0;
        while i < 20
            invariant
                i <= 20,
                words@.len() == 256,
                model@.len() == 40,
                forall|k: int| 0 <= k < 2 * i ==> #[trigger] model@[k] == model_bytes(words@)[k],
            decreases 20 - i,
        {
            let w = words[27 + i];
            model[2 * i] = (w / 256) as u8;
            model[2 * i + 1] = (w % 256) as u8;
            i += 1;
        }
        assert(model@ =~= model_bytes(words@));
        self.model = model;
    }

    pub fn model_string(&self) -> (r: String)
        ensures
            r@ == model_text(self.model@),
            valid_utf8(self.model@.take(trimmed_len(self.model@) as int)) ==> r@ == decode_utf8(
                self.model@.take(trimmed_len(self.model@) as int),
            ),
    {
        let bytes = &self.model;
        let mut end: usize = 40;
        assert(bytes@.take(40) =~= bytes@);
        while end > 0 && (bytes[end - 1] == 32 || bytes[end - 1] == 0)
            invariant
                end <= 40,
                bytes@.len() == 40,
                trimmed_len(bytes@) == trimmed_len(bytes@.take(end as int)),
            decreases end,
        {
            assert(bytes@.take(end as int).drop_last() =~= bytes@.take(end - 1));
            end -= 1;
        }
        if end > 0 {
            assert(bytes@.take(end as int).last() == bytes@[end - 1]);
        }
        let part = slice_subrange(bytes, 0, end);
        assert(part@ =~= bytes@.take(end as int));
        lossy(part)
    }
}

// ---------------------------------------------------------------------
// Transfers
// ---------------------------------------------------------------------

/// How many sectors one command moves when `left` are left.
pub open spec fn chunk(left: int) -> int {
    if left < 128 {
        left
    } else {
        128
    }
}

/// How many of `count` sectors are moved, from `done` on, before a command
/// fails because it reaches past the drive's end.
pub open spec fn sectors_moved(d: Drive, lba: int, count: int, done: int) -> int
    decreases count - done,
{
    if done >= count || !d.usable {
        done
    } else {
        let n = chunk(count - done);
        if (lba + done + n) * 512 > d.media.len() {
            done
        } else {
            sectors_moved(d, lba, count, done + n)
        }
    }
}

/// How a transfer ends.
pub open spec fn transfer_result(d: Drive, lba: int, count: int) -> Result<(), &'static str> {
    if count > 0 && !d.usable {
        Err("AHCI port 0 has no device")
    } else if sectors_moved(d, lba, count, 0) < count {
        Err("AHCI task file error")
    } else {
        Ok(())
    }
}

/// A transfer inside the drive succeeds as a whole.
pub proof fn law_transfer_inside_drive(d: Drive, lba: int, count: int, done: int)
    requires
        d.usable,
        0 <= lba,
        0 <= done <= count,
        (lba + count) * 512 <= d.media.len(),
    ensures
        sectors_moved(d, lba, count, done) == count,
    decreases count - done,
{
    if done < count {
        law_transfer_inside_drive(d, lba, count, done + chunk(count - done));
    }
}

/// A transfer under way: `done` of its `count` sectors are moved, and the
/// command that was issued last moves `pending` more.
#[derive(Clone, Copy, Debug, PartialEq, Eq, Structural)]
pub struct Transfer {
    pub write: bool,
    pub lba: u64,
    pub count: usize,
    /// Where the data is in memory.
    pub buf: u64,
    pub done: usize,
    pub pending: usize,
}

/// What a transfer does next.
pub enum TransferStep {
    Issue(Issue),
    Done,
    Failed(&'static str),
}

impl Transfer {
    pub open spec fn wf(&self) -> bool {
        &&& self.done + self.pending <= self.count
        &&& self.lba + self.count <= u64::MAX
        &&& self.buf + 512 * self.count <= u64::MAX
    }

    pub open spec fn begun(write: bool, lba: u64, count: usize, buf: u64) -> Transfer {
        Transfer { write, lba, count, buf, done: 0, pending: 0 }
    }

    /// The transfer after its last command went through: the next one moves
    /// up to 128 of the sectors that are left.
    pub open spec fn advanced(self) -> Transfer {
        let done = self.done + self.pending;
        Transfer { done: done as usize, pending: chunk(self.count - done) as usize, ..self }
    }

    pub fn new(write: bool, lba: u64, count: usize, buf: u64) -> (r: Transfer)
        requires
            lba + count <= u64::MAX,
            buf + 512 * count <= u64::MAX,
        ensures
            r.wf(),
            r == Transfer::begun(write, lba, count, buf),
    {
        Transfer { write, lba, count, buf, done: 0, pending: 0 }
    }
}

/// The command of a transfer.
pub open spec fn is_command(port: AhciPort, t: Transfer, i: Issue) -> bool {
    &&& i.header@ == header_words(port.ct, t.write)
    &&& i.table@ == table_bytes(
        if t.write {
            CMD_WRITE_DMA_EXT
        } else {
            CMD_READ_DMA_EXT
        },
        (t.lba + t.done) as u64,
        t.pending as u16,
        (t.buf + 512 * t.done) as u64,
    )
}

/// How a command ended, by one look at the command-issue register after
/// `spins` fruitless ones and, once that shows it through, by the task file
/// and the interrupt status; `None` while it runs.
pub fn command_ended(ci: u32, spins: u32, tfd: u32, is: u32) -> (r: Option<
    Result<(), &'static str>,
>)
    requires
        spins < u32::MAX,
    ensures
        r == if ci % 2 == 0 {
            Some(completion(tfd, is))
        } else if spins + 1 > SPIN_LIMIT {
            Some(Err::<(), &'static str>("AHCI command timeout"))
        } else {
            None
        },
{
    match poll_command(ci, spins) {
        Poll::Again => None,
        Poll::Completed => Some(command_outcome(tfd, is)),
        Poll::Failed(e) => Some(Err(e)),
    }
}

impl Ahci {
    /// Takes a transfer one command further. `last` is how its last command
    /// ended (`Ok` before the first): a command that failed ends the
    /// transfer, with the sectors before it moved.
    pub fn transfer_step(&self, t: &mut Transfer, last: Result<(), &'static str>) -> (r:
        TransferStep)
        requires
            old(t).wf(),
        ensures
            final(t).wf(),
            match last {
                Err(e) => r == TransferStep::Failed(e) && *final(t) == *old(t),
                Ok(_) => {
                    &&& *final(t) == old(t).advanced()
                    &&& if old(t).advanced().pending == 0 {
                        r == TransferStep::Done
                    } else if !self.port.present {
                        r == TransferStep::Failed("AHCI port 0 has no device")
                    } else {
                        r matches TransferStep::Issue(i) && is_command(
                            self.port,
                            old(t).advanced(),
                            i,
                        )
                    }
                },
            },
    {
        if let Err(e) = last {
            return TransferStep::Failed(e);
        }
        t.done = t.done + t.pending;
        let left = t.count - t.done;
        t.pending = if left < MAX_CHUNK_SECTORS { left } else { MAX_CHUNK_SECTORS };
        if t.pending == 0 {
            return TransferStep::Done;
        }
        let cmd = if t.write { CMD_WRITE_DMA_EXT } else { CMD_READ_DMA_EXT };
        let at = t.buf + 512 * t.done as u64;
        match self.command(cmd, t.lba + t.done as u64, t.pending as u16, at, t.write) {
            Err(e) => TransferStep::Failed(e),
            Ok(i) => TransferStep::Issue(i),
        }
    }
}

/// How many sectors a drive moves for a transfer whose command has just been
/// issued: commands go through up to the first that reaches past its end.
pub open spec fn moved_by(d: Drive, t: Transfer) -> int
    decreases t.count - t.done,
{
    if t.pending == 0 || !t.wf() || (t.lba + t.done + t.pending) * 512 > d.media.len() {
        t.done as int
    } else {
        moved_by(d, t.advanced())
    }
}

/// The commands of a transfer, issued one after the other, move exactly the
/// sectors that reading or writing them at once does.
pub proof fn law_commands_move_the_sectors(
    d: Drive,
    write: bool,
    lba: u64,
    count: usize,
    buf: u64,
)
    requires
        d.usable,
        lba + count <= u64::MAX,
        buf + 512 * count <= u64::MAX,
    ensures
        moved_by(d, Transfer::begun(write, lba, count, buf).advanced()) == sectors_moved(
            d,
            lba as int,
            count as int,
            0,
        ),
{
    lemma_commands_move(d, Transfer::begun(write, lba, count, buf).advanced());
}

proof fn lemma_commands_move(d: Drive, t: Transfer)
    requires
        d.usable,
        t.wf(),
        t.pending == chunk(t.count - t.done),
    ensures
        moved_by(d, t) == sectors_moved(d, t.lba as int, t.count as int, t.done as int),
    decreases t.count - t.done,
{
    if t.pending > 0 && (t.lba + t.done + t.pending) * 512 <= d.media.len() {
        lemma_commands_move(d, t.advanced());
    }
}

impl Ahci {
    /// Whether the drive has the `n` sectors from `lba` on.
    fn reaches(&self, lba: u64, n: usize) -> (r: bool)
        ensures
            r == ((lba + n) * 512 <= self.media@.len()),
    {
        assert(self.media@.len() == self.media.len());
        let room = (self.media.len() / 512) as u64;
        lba <= room && n as u64 <= room - lba
    }

    /// Reads `count` sectors from `lba` on to the front of `buf`, in
    /// commands of at most 128 sectors. A command that reaches past the
    /// drive's end fails, after those before it went through.
    pub fn read_sectors(&self, lba: u64, count: usize, buf: &mut Vec<u8>) -> (r: Result<
        (),
        &'static str,
    >)
        requires
            count * 512 <= old(buf)@.len(),
        ensures
            r == transfer_result(self@, lba as int, count as int),
            ({
                let n = sectors_moved(self@, lba as int, count as int, 0);
                final(buf)@ == if n > 0 {
                    splice(
                        old(buf)@,
                        0,
                        self@.media.subrange(lba * 512, (lba + n) * 512),
                    )
                } else {
                    old(buf)@
                }
            }),
    {
        assert(self.media@.len() == self.media.len());
        assert(buf@.len() == buf.len());
        let mut done: usize = 0;
        let ghost d = self@;
        while done < count
            invariant
                d == self@,
                d.usable == self.port.present,
                d.media == self.media@,
                done <= count,
                count * 512 <= buf@.len(),
                buf@.len() == buf.len(),
                buf@.len() == old(buf)@.len(),
                self.media@.len() == self.media.len(),
                    done > 0 ==> d.usable,
                done > 0 ==> (lba + done) * 512 <= d.media.len(),
                sectors_moved(d, lba as int, count as int, 0) == sectors_moved(
                    d,
                    lba as int,
                    count as int,
                    done as int,
                ),
                done == 0 ==> buf@ == old(buf)@,
                done > 0 ==> buf@ == splice(
                    old(buf)@,
                    0,
                    d.media.subrange(lba * 512, (lba + done) * 512),
                ),
            decreases count - done,
        {
            let n = if count - done < MAX_CHUNK_SECTORS { count - done } else { MAX_CHUNK_SECTORS };
            if !self.port.present {
                return Err("AHCI port 0 has no device");
            }
            if !self.reaches(lba, done + n) {
                return Err("AHCI task file error");
            }
            let ghost before = buf@;
            let from = ((lba + done as u64) * 512) as usize;
            let part = slice_subrange(self.media.as_slice(), from, from + n * 512);
            copy_into(buf, done * 512, part);
            proof {
                assert(part@ =~= d.media.subrange((lba + done) * 512, (lba + done + n) * 512));
                assert(buf@ =~= splice(
                    old(buf)@,
                    0,
                    d.media.subrange(lba * 512, (lba + done + n) * 512),
                ));
            }
            done += n;
        }
        Ok(())
    }

    /// Writes `count` sectors from `lba` on from the front of `buf`, cut
    /// into commands the same way.
    pub fn write_sectors(&mut self, lba: u64, count: usize, buf: &[u8]) -> (r: Result<
        (),
        &'static str,
    >)
        requires
            count * 512 <= buf@.len(),
        ensures
            r == transfer_result(old(self)@, lba as int, count as int),
            ({
                let n = sectors_moved(old(self)@, lba as int, count as int, 0);
                final(self)@ == if n > 0 {
                    Drive {
                        media: splice(old(self)@.media, lba * 512, buf@.subrange(0, n * 512)),
                        ..old(self)@
                    }
                } else {
                    old(self)@
                }
            }),
            *final(self) == (Ahci { media: final(self).media, ..*old(self) }),
    {
        assert(self.media@.len() == self.media.len());
        assert(buf@.len() == buf.len());
        let mut done: usize = 0;
        let ghost d = self@;
        while done < count
            invariant
                d == old(self)@,
                d.usable == self.port.present,
                self.sectors == old(self).sectors,
                self.model == old(self).model,
                self.port == old(self).port,
                done <= count,
                count * 512 <= buf@.len(),
                buf@.len() == buf.len(),
                self.media@.len() == d.media.len(),
                self.media@.len() == self.media.len(),
                    done > 0 ==> d.usable,
                done > 0 ==> (lba + done) * 512 <= d.media.len(),
                sectors_moved(d, lba as int, count as int, 0) == sectors_moved(
                    d,
                    lba as int,
                    count as int,
                    done as int,
                ),
                done == 0 ==> self.media@ == d.media,
                done > 0 ==> self.media@ == splice(
                    d.media,
                    lba * 512,
                    buf@.subrange(0, done * 512),
                ),
            decreases count - done,
        {
            let n = if count - done < MAX_CHUNK_SECTORS { count - done } else { MAX_CHUNK_SECTORS };
            if !self.port.present {
                return Err("AHCI port 0 has no device");
            }
            if !self.reaches(lba, done + n) {
                return Err("AHCI task file error");
            }
            let at = ((lba + done as u64) * 512) as usize;
            let part = slice_subrange(buf, done * 512, (done + n) * 512);
            copy_into(&mut self.media, at, part);
            proof {
                assert(part@ =~= buf@.subrange(done * 512, (done + n) * 512));
                assert(self.media@ =~= splice(
                    d.media,
                    lba * 512,
                    buf@.subrange(0, (done + n) * 512),
                ));
            }
            done += n;
        }
        Ok(())
    }
}

// ---------------------------------------------------------------------
// Bring-up
// ---------------------------------------------------------------------

/// Finds the controller on the PCI bus: the first function with its ids.
pub fn locate(bus: &Bus) -> (r: Result<(u8, u8, u8), &'static str>)
    requires
        bus.wf(),
    ensures
        match r {
            Ok((b, dev, func)) => {
                &&& b == 0 && dev < 32 && func < 8
                &&& bus.answers(dev as int, func as int, VENDOR_INTEL, DEV_ICH9_AHCI)
                &&& forall|d: int, f: int|
                    0 <= f < 8 && 0 <= d && (d < dev || d == dev && f < func)
                        ==> !#[trigger] bus.answers(d, f, VENDOR_INTEL, DEV_ICH9_AHCI)
            },
            Err(e) => {
                &&& e == "ICH9 AHCI (8086:2922) not found on PCI bus 0"
                &&& forall|d: int, f: int|
                    0 <= d < 32 && 0 <= f < 8 ==> !#[trigger] bus.answers(
                        d,
                        f,
                        VENDOR_INTEL,
                        DEV_ICH9_AHCI,
                    )
            },
        },
{
    match find_device(bus, VENDOR_INTEL, DEV_ICH9_AHCI) {
        Some(at) => Ok(at),
        None => Err("ICH9 AHCI (8086:2922) not found on PCI bus 0"),
    }
}

/// The command register with I/O, memory and bus-master access on.
pub fn enabled_command(command: u32) -> (r: u32)
    ensures
        r == command | 7,
{
    command | 7
}

/// Where the controller's registers are, by its base address register.
pub fn register_base(bar: u32) -> (r: Result<u32, &'static str>)
    ensures
        r == if bar < 16 {
            Err::<u32, &'static str>("AHCI ABAR not assigned")
        } else {
            Ok((bar / 16 * 16) as u32)
        },
{
    let abar = bar / 16 * 16;
    if abar == 0 {
        Err("AHCI ABAR not assigned")
    } else {
        Ok(abar)
    }
}

/// Where the bring-up stands. The `See` phases wait for the value of a
/// register.
#[derive(Clone, Copy, Debug, PartialEq, Eq, Structural)]
pub enum Phase {
    Start,
    PollReset,
    SeeReset,
    PollPorts,
    SeePorts,
    SeeCommand,
    PollStop,
    SeeStop,
    NeedFrames,
    SetFis,
    SetInterrupts,
    SetCommand,
    PollFis,
    SeeFis,
    SeeDevice,
    SeeStart,
    Started,
    Stuck,
}

/// What the bring-up asks for next.
#[derive(Clone, Copy, Debug)]
pub enum Step {
    /// Read a register and come back with its value.
    Read(u32),
    /// Write a register.
    Write(u32, u32),
    /// Give the port its four frames with `take_frames`.
    Frames,
    /// The port runs: send IDENTIFY.
    Identify,
    Fail(&'static str),
}

pub struct Bringup {
    pub phase: Phase,
    pub spins: u32,
    pub clb: u32,
    pub ct: u32,
    pub fb: u32,
    pub buf: u32,
}

/// Another look at a register, or the end of patience.
pub open spec fn again(b: Bringup, reg: u32, message: &'static str) -> (Bringup, Step) {
    if b.spins + 1 > SPIN_LIMIT {
        (Bringup { phase: Phase::Stuck, ..b }, Step::Fail(message))
    } else {
        (Bringup { spins: (b.spins + 1) as u32, ..b }, Step::Read(reg))
    }
}

/// The drive is there (detection 3) and active (power state 1).
pub open spec fn device_active(ssts: u32) -> bool {
    ssts % 16 == 3 && ssts / 256 % 16 == 1
}

/// One step of the bring-up: reset, AHCI enable, stopping the port, its
/// structures, FIS receive, detection, start.
pub open spec fn brought(b: Bringup, v: u32) -> (Bringup, Step) {
    match b.phase {
        Phase::Start => (Bringup { phase: Phase::PollReset, ..b }, Step::Write(HBA_GHC, GHC_HR)),
        Phase::PollReset => (
            Bringup { phase: Phase::SeeReset, spins: 0, ..b },
            Step::Read(HBA_GHC),
        ),
        Phase::SeeReset => if v % 2 == 0 {
            (Bringup { phase: Phase::PollPorts, ..b }, Step::Write(HBA_GHC, GHC_AE))
        } else {
            again(b, HBA_GHC, "AHCI reset timeout")
        },
        Phase::PollPorts => (Bringup { phase: Phase::SeePorts, ..b }, Step::Read(HBA_PI)),
        Phase::SeePorts => if v % 2 == 0 {
            (
                Bringup { phase: Phase::Stuck, ..b },
                Step::Fail("AHCI port 0 not implemented"),
            )
        } else {
            (Bringup { phase: Phase::SeeCommand, ..b }, Step::Read(PORT_CMD))
        },
        Phase::SeeCommand => (
            Bringup { phase: Phase::PollStop, ..b },
            Step::Write(PORT_CMD, v & 0xFFFF_FFEE),
        ),
        Phase::PollStop => (
            Bringup { phase: Phase::SeeStop, spins: 0, ..b },
            Step::Read(PORT_CMD),
        ),
        Phase::SeeStop => if v / 0x4000 % 4 == 0 {
            (Bringup { phase: Phase::NeedFrames, ..b }, Step::Frames)
        } else {
            again(b, PORT_CMD, "AHCI port stop timeout")
        },
        Phase::NeedFrames => (b, Step::Frames),
        Phase::SetFis => (
            Bringup { phase: Phase::SetInterrupts, ..b },
            Step::Write(PORT_FB, b.fb),
        ),
        Phase::SetInterrupts => (
            Bringup { phase: Phase::SetCommand, ..b },
            Step::Write(PORT_IE, 0),
        ),
        Phase::SetCommand => (
            Bringup { phase: Phase::PollFis, ..b },
            Step::Write(PORT_CMD, 0x16),
        ),
        Phase::PollFis => (
            Bringup { phase: Phase::SeeFis, spins: 0, ..b },
            Step::Read(PORT_CMD),
        ),
        Phase::SeeFis => if v / 0x4000 % 2 == 1 {
            (Bringup { phase: Phase::SeeDevice, spins: 0, ..b }, Step::Read(PORT_SSTS))
        } else {
            again(b, PORT_CMD, "AHCI FIS receive timeout")
        },
        Phase::SeeDevice => if device_active(v) {
            (Bringup { phase: Phase::SeeStart, ..b }, Step::Read(PORT_CMD))
        } else {
            again(b, PORT_SSTS, "AHCI: no device on port 0")
        },
        Phase::SeeStart => (
            Bringup { phase: Phase::Started, ..b },
            Step::Write(PORT_CMD, v | 1),
        ),
        Phase::Started => (b, Step::Identify),
        Phase::Stuck => (b, Step::Fail("AHCI init failed")),
    }
}

impl Bringup {
    pub fn new() -> (r: Self)
        ensures
            r == (Bringup { phase: Phase::Start, spins: 0, clb: 0, ct: 0, fb: 0, buf: 0 }),
    {
        Bringup { phase: Phase::Start, spins: 0, clb: 0, ct: 0, fb: 0, buf: 0 }
    }

    fn again(&mut self, reg: u32, message: &'static str) -> (r: Step)
        requires
            old(self).spins < u32::MAX,
        ensures
            (*final(self), r) == again(*old(self), reg, message),
    {
        if self.spins + 1 > SPIN_LIMIT {
            self.phase = Phase::Stuck;
            Step::Fail(message)
        } else {
            self.spins = self.spins + 1;
            Step::Read(reg)
        }
    }

    /// One step; `value` is that of the register that the last step asked
    /// to read.
    pub fn init(&mut self, value: u32) -> (r: Step)
        requires
            old(self).spins < u32::MAX,
        ensures
            (*final(self), r) == brought(*old(self), value),
            final(self).spins <= old(self).spins + 1,
    {
        match self.phase {
            Phase::Start => {
                self.phase = Phase::PollReset;
                Step::Write(HBA_GHC, GHC_HR)
            },
            Phase::PollReset => {
                self.phase = Phase::SeeReset;
                self.spins = 0;
                Step::Read(HBA_GHC)
            },
            Phase::SeeReset => {
                if value % 2 == 0 {
                    self.phase = Phase::PollPorts;
                    Step::Write(HBA_GHC, GHC_AE)
                } else {
                    self.again(HBA_GHC, "AHCI reset timeout")
                }
            },
            Phase::PollPorts => {
                self.phase = Phase::SeePorts;
                Step::Read(HBA_PI)
            },
            Phase::SeePorts => {
                if value % 2 == 0 {
                    self.phase = Phase::Stuck;
                    Step::Fail("AHCI port 0 not implemented")
                } else {
                    self.phase = Phase::SeeCommand;
                    Step::Read(PORT_CMD)
                }
            },
            Phase::SeeCommand => {
                self.phase = Phase::PollStop;
                Step::Write(PORT_CMD, value & 0xFFFF_FFEE)
            },
            Phase::PollStop => {
                self.phase = Phase::SeeStop;
                self.spins = 0;
                Step::Read(PORT_CMD)
            },
            Phase::SeeStop => {
                if value / 0x4000 % 4 == 0 {
                    self.phase = Phase::NeedFrames;
                    Step::Frames
                } else {
                    self.again(PORT_CMD, "AHCI port stop timeout")
                }
            },
            Phase::NeedFrames => Step::Frames,
            Phase::SetFis => {
                self.phase = Phase::SetInterrupts;
                Step::Write(PORT_FB, self.fb)
            },
            Phase::SetInterrupts => {
                self.phase = Phase::SetCommand;
                Step::Write(PORT_IE, 0)
            },
            Phase::SetCommand => {
                self.phase = Phase::PollFis;
                Step::Write(PORT_CMD, 0x16)
            },
            Phase::PollFis => {
                self.phase = Phase::SeeFis;
                self.spins = 0;
                Step::Read(PORT_CMD)
            },
            Phase::SeeFis => {
                if value / 0x4000 % 2 == 1 {
                    self.phase = Phase::SeeDevice;
                    self.spins = 0;
                    Step::Read(PORT_SSTS)
                } else {
                    self.again(PORT_CMD, "AHCI FIS receive timeout")
                }
            },
            Phase::SeeDevice => {
                if value % 16 == 3 && value / 256 % 16 == 1 {
                    self.phase = Phase::SeeStart;
                    Step::Read(PORT_CMD)
                } else {
                    self.again(PORT_SSTS, "AHCI: no device on port 0")
                }
            },
            Phase::SeeStart => {
                self.phase = Phase::Started;
                Step::Write(PORT_CMD, value | 1)
            },
            Phase::Started => Step::Identify,
            Phase::Stuck => Step::Fail("AHCI init failed"),
        }
    }

    /// Gives the port its command list, command table, FIS area and identify
    /// buffer: the physical addresses of four cleared frames, `None` for one
    /// that could not be had.
    pub fn take_frames(
        &mut self,
        clb: Option<u64>,
        ct: Option<u64>,
        fb: Option<u64>,
        buf: Option<u64>,
    ) -> (r: Step)
        ensures
            (*final(self), r) == framed(*old(self), clb, ct, fb, buf),
    {
        self.phase = Phase::Stuck;
        let clb = match clb {
            None => {
                return Step::Fail("no memory for AHCI command list");
            },
            Some(a) => (a % 0x1_0000_0000) as u32,
        };
        let ct = match ct {
            None => {
                return Step::Fail("no memory for AHCI command table");
            },
            Some(a) => (a % 0x1_0000_0000) as u32,
        };
        let fb = match fb {
            None => {
                return Step::Fail("no memory for AHCI FIS area");
            },
            Some(a) => (a % 0x1_0000_0000) as u32,
        };
        let buf = match buf {
            None => {
                return Step::Fail("no memory for AHCI identify buffer");
            },
            Some(a) => (a % 0x1_0000_0000) as u32,
        };
        self.phase = Phase::SetFis;
        self.clb = clb;
        self.ct = ct;
        self.fb = fb;
        self.buf = buf;
        Step::Write(PORT_CLB, clb)
    }

    /// The drive, once the port runs.
    pub fn started(&self) -> (r: Option<Ahci>)
        ensures
            r is Some <==> self.phase == Phase::Started,
            r matches Some(a) ==> a.port == (AhciPort {
                present: true,
                clb: self.clb,
                ct: self.ct,
                fb: self.fb,
                buf: self.buf,
            }) && a.sectors == 0 && a.media@.len() == 0 && a.model@ == zeros(40),
    {
        if self.phase != Phase::Started {
            return None;
        }
        let a = Ahci {
            port: AhciPort {
                present: true,
                clb: self.clb,
                ct: self.ct,
                fb: self.fb,
                buf: self.buf,
            },
            sectors: 0,
            model: [0u8; 40],
            media: Vec::new(),
        };
        assert(a.model@ =~= zeros(40));
        Some(a)
    }
}

/// The low word of an address.
pub open spec fn low(a: u64) -> u32 {
    (a % 0x1_0000_0000) as u32
}

/// The bring-up once the frames are there or not.
pub open spec fn framed(
    b: Bringup,
    clb: Option<u64>,
    ct: Option<u64>,
    fb: Option<u64>,
    buf: Option<u64>,
) -> (Bringup, Step) {
    let stuck = Bringup { phase: Phase::Stuck, ..b };
    if clb is None {
        (stuck, Step::Fail("no memory for AHCI command list"))
    } else if ct is None {
        (stuck, Step::Fail("no memory for AHCI command table"))
    } else if fb is None {
        (stuck, Step::Fail("no memory for AHCI FIS area"))
    } else if buf is None {
        (stuck, Step::Fail("no memory for AHCI identify buffer"))
    } else {
        (
            Bringup {
                phase: Phase::SetFis,
                clb: low(clb->0),
                ct: low(ct->0),
                fb: low(fb->0),
                buf: low(buf->0),
                ..b
            },
            Step::Write(PORT_CLB, low(clb->0)),
        )
    }
}

/// Takes an identified drive into service; one without sectors is none.
pub fn accept(drive: Ahci) -> (r: Result<Ahci, &'static str>)
    ensures
        r == if drive.sectors == 0 {
            Err::<Ahci, &'static str>("AHCI identify returned zero sectors")
        } else {
            Ok(drive)
        },
{
    if drive.sectors == 0 {
        Err("AHCI identify returned zero sectors")
    } else {
        Ok(drive)
    }
}

/// True once the driver is up with a usable disk.
pub fn active(ahci: &Option<Ahci>) -> (r: bool)
    ensures
        r == (ahci matches Some(a) && a.port.present),
{
    match ahci {
        Some(a) => a.port.present,
        None => false,
    }
}

/// Sector count of the AHCI disk.
pub fn sectors(ahci: &Option<Ahci>) -> (r: u64)
    ensures
        r == match *ahci {
            Some(a) => a.sectors,
            None => 0,
        },
{
    match ahci {
        Some(a) => a.sectors,
        None => 0,
    }
}

/// One line about the drive.
pub open spec fn description(a: Ahci) -> Seq<char> {
    "[0] SATA "@ + shown_model(a.model@) + " ("@ + dec(a.sectors as nat / 2048) + " MiB, LBA48)"@
}

impl Ahci {
    pub fn describe(&self) -> (r: String)
        ensures
            r@ == description(*self),
    {
        let mut out: Vec<char> = Vec::new();
        push_str(&mut out, "[0] SATA ");
        let model = self.model_string();
        let chars = chars_of(model.as_str());
        if chars.len() == 0 {
            push_str(&mut out, "(unnamed)");
        } else {
            push_str(&mut out, model.as_str());
        }
        push_str(&mut out, " (");
        push_dec(&mut out, self.sectors / 2048);
        push_str(&mut out, " MiB, LBA48)");
        assert(out@ =~= description(*self));
        string_of(&out)
    }
}

/// Human-readable description for the boot log.
pub fn describe(ahci: &Option<Ahci>) -> (r: String)
    ensures
        r@ == match *ahci {
            Some(a) => description(a),
            None => "AHCI not initialized"@,
        },
{
    match ahci {
        Some(a) => a.describe(),
        None => {
            let mut out: Vec<char> = Vec::new();
            push_str(&mut out, "AHCI not initialized");
            assert(out@ =~= "AHCI not initialized"@);
            string_of(&out)
        },
    }
}

/// Reads `count` sectors starting at `lba` into `buf`.
pub fn read_sectors(ahci: &Option<Ahci>, lba: u64, count: usize, buf: &mut Vec<u8>) -> (r: Result<
    (),
    &'static str,
>)
    requires
        count * 512 <= old(buf)@.len(),
    ensures
        match *ahci {
            None => r == Err::<(), &'static str>("AHCI not initialized") && final(buf)@
                == old(buf)@,
            Some(a) => {
                let n = sectors_moved(a@, lba as int, count as int, 0);
                &&& r == transfer_result(a@, lba as int, count as int)
                &&& final(buf)@ == if n > 0 {
                    splice(old(buf)@, 0, a@.media.subrange(lba * 512, (lba + n) * 512))
                } else {
                    old(buf)@
                }
            },
        },
{
    match ahci {
        None => Err("AHCI not initialized"),
        Some(a) => a.read_sectors(lba, count, buf),
    }
}

/// Writes `count` sectors starting at `lba` from `buf`.
pub fn write_sectors(ahci: &mut Option<Ahci>, lba: u64, count: usize, buf: &[u8]) -> (r: Result<
    (),
    &'static str,
>)
    requires
        count * 512 <= buf@.len(),
    ensures
        match *old(ahci) {
            None => r == Err::<(), &'static str>("AHCI not initialized") && *final(ahci) is None,
            Some(a) => {
                let n = sectors_moved(a@, lba as int, count as int, 0);
                &&& r == transfer_result(a@, lba as int, count as int)
                &&& *final(ahci) matches Some(b) && b@ == (if n > 0 {
                    Drive { media: splice(a@.media, lba * 512, buf@.subrange(0, n * 512)), ..a@ }
                } else {
                    a@
                }) && b.sectors == a.sectors && b.model == a.model
            },
        },
{
    match ahci {
        None => Err("AHCI not initialized"),
        Some(a) => a.write_sectors(lba, count, buf),
    }
}

/// Once the port stopped in time and the frames are there, a drive that
/// answers is started: the steps lead to IDENTIFY.
pub proof fn law_bringup_reaches_identify(
    b: Bringup,
    command: u32,
    running: u32,
    status: u32,
    again: u32,
)
    requires
        b.phase == Phase::SetFis,
        running / 0x4000 % 2 == 1,
        device_active(status),
    ensures
        ({
            let b1 = brought(brought(brought(b, 0).0, 0).0, 0).0;
            let b2 = brought(brought(b1, command).0, running).0;
            let b3 = brought(brought(b2, status).0, again).0;
            brought(b3, 0) == (b3, Step::Identify)
        }),
{
}

} // verus!
