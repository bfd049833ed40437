//! ATA PIO (IDE) disks: what IDENTIFY says about a drive, which transfers
//! are valid, and the sectors of a drive as the file system sees them.
//! Only LBA28 is used.

use crate::bytes::{copy_into, splice};
use crate::port::{out, outb, PortWrite};
use crate::text::{dec, lossy, push_dec, push_str, string_of, utf8_lossy};
use vstd::prelude::*;
use vstd::slice::slice_subrange;
use vstd::utf8::{decode_utf8, valid_utf8};

verus! {

pub const PRIMARY_BASE: u16 = 0x1F0;

pub const SECONDARY_BASE: u16 = 0x170;

pub const PRIMARY_CTRL: u16 = 0x3F6;

pub const SECONDARY_CTRL: u16 = 0x376;

pub const STATUS_BSY: u8 = 0x80;

pub const STATUS_DRQ: u8 = 0x08;

pub const STATUS_ERR: u8 = 0x01;

pub const CMD_READ: u8 = 0x20;

pub const CMD_WRITE: u8 = 0x30;

pub const CMD_IDENTIFY: u8 = 0xEC;

/// A drive and the sectors on it.
pub struct AtaDevice {
    pub base: u16,
    pub master: bool,
    pub present: bool,
    pub atapi: bool,
    pub lba48: bool,
    pub sectors: u64,
    pub model: [u8; 40],
    pub media: Vec<u8>,
}

/// A drive as far as transfers go.
pub struct Drive {
    /// Whether it is a SATA drive behind an AHCI controller.
    pub sata: bool,
    pub usable: bool,
    pub media: Seq<u8>,
}

impl View for AtaDevice {
    type V = Drive;

    open spec fn view(&self) -> Drive {
        Drive { sata: false, usable: self.present && !self.atapi, media: self.media@ }
    }
}

/// Why a transfer of `count` sectors from `lba` on with a buffer of `len`
/// bytes fails; `invalid` is said of a malformed request.
pub open spec fn transfer_error(
    d: Drive,
    lba: u64,
    count: nat,
    len: nat,
    invalid: &'static str,
) -> Option<&'static str> {
    if d.sata {
        if !d.usable {
            Some("AHCI port 0 has no device")
        } else if (lba + count) * 512 > d.media.len() {
            Some("AHCI task file error")
        } else {
            None
        }
    } else if !d.usable {
        Some("no ATA block device")
    } else if count == 0 || count > 256 || len < count * 512 {
        Some(invalid)
    } else if lba >= 0x1000_0000 {
        Some("LBA28 range exceeded")
    } else if (lba + count) * 512 > d.media.len() {
        Some("ATA: drive error")
    } else {
        None
    }
}

/// The bytes of `count` sectors from `lba` on.
pub open spec fn sectors_at(d: Drive, lba: int, count: int) -> Seq<u8> {
    d.media.subrange(lba * 512, (lba + count) * 512)
}

/// The length of the bytes without trailing spaces and zeros.
pub open spec fn trimmed_len(s: Seq<u8>) -> nat
    decreases s.len(),
{
    if s.len() == 0 {
        0
    } else if s.last() != 32 && s.last() != 0 {
        s.len()
    } else {
        trimmed_len(s.drop_last())
    }
}

/// A drive's model name as text.
pub open spec fn model_text(model: Seq<u8>) -> Seq<char> {
    utf8_lossy(model.take(trimmed_len(model) as int))
}

/// The register writes of a command: drive and head, sector count, the low
/// 24 bits of the sector number, and the command itself.
pub open spec fn taskfile(base: u16, drive: u8, count: u8, lba: u64, command: u8) -> Seq<PortWrite> {
    seq![
        out((base + 6) as u16, drive),
        out((base + 2) as u16, count),
        out((base + 3) as u16, (lba % 0x100) as u8),
        out((base + 4) as u16, (lba / 0x100 % 0x100) as u8),
        out((base + 5) as u16, (lba / 0x1_0000 % 0x100) as u8),
        out((base + 7) as u16, command),
    ]
}

fn task_writes(base: u16, drive: u8, count: u8, lba: u64, command: u8) -> (r: Vec<PortWrite>)
    requires
        base <= 0xFFF8,
    ensures
        r@ == taskfile(base, drive, count, lba, command),
{
    let r = vec![
        outb(base + 6, drive),
        outb(base + 2, count),
        outb(base + 3, (lba % 0x100) as u8),
        outb(base + 4, (lba / 0x100 % 0x100) as u8),
        outb(base + 5, (lba / 0x1_0000 % 0x100) as u8),
        outb(base + 7, command),
    ];
    assert(r@ =~= taskfile(base, drive, count, lba, command));
    r
}

/// The register writes that ask a drive to identify itself.
pub fn identify_command(base: u16, master: bool) -> (r: Vec<PortWrite>)
    requires
        base <= 0xFFF8,
    ensures
        r@ == taskfile(
            base,
            if master {
                0xA0
            } else {
                0xB0
            },
            0,
            0,
            CMD_IDENTIFY,
        ),
{
    task_writes(
        base,
        if master {
            0xA0
        } else {
            0xB0
        },
        0,
        0,
        CMD_IDENTIFY,
    )
}

impl AtaDevice {
    /// The drive/head byte that selects the drive and the top of the LBA.
    pub fn drive_select(&self, lba: u64) -> (r: u8)
        ensures
            r == 0xE0 + (if self.master { 0int } else { 0x10 }) + lba as int / 0x100_0000 % 16,
    {
        let top = (lba / 0x100_0000 % 16) as u8;
        0xE0 + (if self.master { 0 } else { 0x10 }) + top
    }

    /// The register writes that start a transfer of `count` sectors, which
    /// then go over the data port one by one.
    pub fn command(&self, lba: u64, count: usize, write: bool) -> (r: Vec<PortWrite>)
        requires
            self.base <= 0xFFF8,
            lba < 0x1000_0000,
            0 < count <= 256,
        ensures
            r@ == taskfile(
                self.base,
                (0xE0 + (if self.master { 0int } else { 0x10 }) + lba as int / 0x100_0000 % 16) as u8,
                (count % 256) as u8,
                lba,
                if write {
                    CMD_WRITE
                } else {
                    CMD_READ
                },
            ),
    {
        task_writes(
            self.base,
            self.drive_select(lba),
            (count % 256) as u8,
            lba,
            if write {
                CMD_WRITE
            } else {
                CMD_READ
            },
        )
    }

    pub fn model_string(&self) -> (r: String)
        ensures
            r@ == model_text(self.model@),
            valid_utf8(self.model@.take(trimmed_len(self.model@) as int)) ==> r@ == decode_utf8(
                self.model@.take(trimmed_len(self.model@) as int),
            ),
    {
        let bytes = &self.model;
        let mut end: usize = 40;
        assert(bytes@.take(40) =~= bytes@);
        while end > 0 && (bytes[end - 1] == 32 || bytes[end - 1] == 0)
            invariant
                end <= 40,
                bytes@.len() == 40,
                trimmed_len(bytes@) == trimmed_len(bytes@.take(end as int)),
            decreases end,
        {
            assert(bytes@.take(end as int).drop_last() =~= bytes@.take(end - 1));
            end -= 1;
        }
        if end > 0 {
            assert(bytes@.take(end as int).last() == bytes@[end - 1]);
        }
        let part = slice_subrange(bytes, 0, end);
        assert(part@ =~= bytes@.take(end as int));
        lossy(part)
    }

    /// Reads `count` sectors from `lba` on to the front of `buf`.
    pub fn read_sectors(&self, lba: u64, count: usize, buf: &mut Vec<u8>) -> (r: Result<
        (),
        &'static str,
    >)
        ensures
            match transfer_error(self@, lba, count as nat, old(buf)@.len(), "invalid read request") {
                Some(e) => r == Err::<(), &'static str>(e) && final(buf)@ == old(buf)@,
                None => r == Ok::<(), &'static str>(()) && final(buf)@ == splice(
                    old(buf)@,
                    0,
                    sectors_at(self@, lba as int, count as int),
                ),
            },
    {
        if !self.present || self.atapi {
            return Err("no ATA block device");
        }
        if count == 0 || count > 256 || buf.len() < count * 512 {
            return Err("invalid read request");
        }
        if lba >= 0x1000_0000 {
            return Err("LBA28 range exceeded");
        }
        if (lba + count as u64) * 512 > self.media.len() as u64 {
            return Err("ATA: drive error");
        }
        let start = (lba * 512) as usize;
        let part = slice_subrange(self.media.as_slice(), start, start + count * 512);
        assert(part@ =~= sectors_at(self@, lba as int, count as int));
        copy_into(buf, 0, part);
        Ok(())
    }

    /// Writes `count` sectors from the front of `buf` to `lba` on.
    pub fn write_sectors(&mut self, lba: u64, count: usize, buf: &[u8]) -> (r: Result<
        (),
        &'static str,
    >)
        ensures
            match transfer_error(
                old(self)@,
                lba,
                count as nat,
                buf@.len(),
                "invalid write request",
            ) {
                Some(e) => r == Err::<(), &'static str>(e) && final(self)@ == old(self)@,
                None => r == Ok::<(), &'static str>(()) && final(self)@ == (Drive {
                    media: splice(
                        old(self)@.media,
                        lba * 512,
                        buf@.take(count * 512),
                    ),
                    ..old(self)@
                }),
            },
            *final(self) == (AtaDevice { media: final(self).media, ..*old(self) }),
    {
        if !self.present || self.atapi {
            return Err("no ATA block device");
        }
        if count == 0 || count > 256 || buf.len() < count * 512 {
            return Err("invalid write request");
        }
        if lba >= 0x1000_0000 {
            return Err("LBA28 range exceeded");
        }
        if (lba + count as u64) * 512 > self.media.len() as u64 {
            return Err("ATA: drive error");
        }
        let part = slice_subrange(buf, 0, count * 512);
        assert(part@ =~= buf@.take(count * 512));
        copy_into(&mut self.media, (lba * 512) as usize, part);
        Ok(())
    }
}

/// What a look at the status register means while a command runs.
#[derive(Clone, Copy, Debug)]
pub enum WaitStep {
    Busy,
    Ready,
    Failed(&'static str),
}

/// Whether the drive stopped being busy.
pub fn wait_bsy_clear(status: u8) -> (r: WaitStep)
    ensures
        r == if status & 0x80 == 0 {
            WaitStep::Ready
        } else {
            WaitStep::Busy
        },
{
    if status & STATUS_BSY == 0 {
        WaitStep::Ready
    } else {
        WaitStep::Busy
    }
}

/// Whether the drive wants data moved.
pub fn wait_drq(status: u8) -> (r: WaitStep)
    ensures
        r == if status & 0x80 != 0 {
            WaitStep::Busy
        } else if status & 0x01 != 0 {
            WaitStep::Failed("ATA: drive error")
        } else if status & 0x08 != 0 {
            WaitStep::Ready
        } else {
            WaitStep::Busy
        },
{
    if status & STATUS_BSY == 0 {
        if status & STATUS_ERR != 0 {
            return WaitStep::Failed("ATA: drive error");
        }
        if status & STATUS_DRQ != 0 {
            return WaitStep::Ready;
        }
    }
    WaitStep::Busy
}

/// Whether a sector that was written has reached the drive.
pub fn wait_idle(status: u8) -> (r: WaitStep)
    ensures
        r == if status & 0x80 != 0 {
            WaitStep::Busy
        } else if status & 0x01 != 0 {
            WaitStep::Failed("ATA: write error")
        } else {
            WaitStep::Ready
        },
{
    if status & STATUS_BSY == 0 {
        if status & STATUS_ERR != 0 {
            return WaitStep::Failed("ATA: write error");
        }
        return WaitStep::Ready;
    }
    WaitStep::Busy
}

/// How often the status is looked at before giving up.
pub const BUSY_WAIT_ITERATIONS: u32 = 100_000_000;

/// What a transfer waits for.
#[derive(Clone, Copy, Debug, PartialEq, Eq, Structural)]
pub enum Awaiting {
    /// The drive to want the next sector moved.
    Data,
    /// The sector to be moved over the data port.
    Move,
    /// A written sector to reach the drive.
    Idle,
}

/// A transfer whose command was given: `done` of its `count` sectors are
/// through, and the status was looked at `spins` times since the last step.
#[derive(Clone, Copy, Debug, PartialEq, Eq, Structural)]
pub struct SectorRun {
    pub write: bool,
    pub count: usize,
    pub done: usize,
    pub spins: u32,
    pub awaiting: Awaiting,
}

/// What a transfer does next.
#[derive(Clone, Copy, Debug)]
pub enum SectorStep {
    /// Read the status register.
    Look,
    /// Move sector `n` of the buffer, 256 words, over the data port.
    Move(usize),
    Done,
    Failed(&'static str),
}

impl SectorRun {
    pub open spec fn wf(&self) -> bool {
        &&& self.done <= self.count
        &&& self.spins < BUSY_WAIT_ITERATIONS
        &&& self.awaiting != Awaiting::Data ==> self.done < self.count
        &&& self.awaiting == Awaiting::Idle ==> self.write
    }

    /// The run with one more sector through.
    pub open spec fn sector_through(self) -> SectorRun {
        SectorRun {
            done: (self.done + 1) as usize,
            spins: 0,
            awaiting: Awaiting::Data,
            ..self
        }
    }

    /// What one more fruitless look comes to.
    pub open spec fn looked(self, message: &'static str) -> (SectorRun, SectorStep) {
        if self.spins + 1 >= BUSY_WAIT_ITERATIONS {
            (self, SectorStep::Failed(message))
        } else {
            (SectorRun { spins: (self.spins + 1) as u32, ..self }, SectorStep::Look)
        }
    }

    /// What to do once a sector is through.
    pub open spec fn onward(self) -> SectorStep {
        if self.done >= self.count {
            SectorStep::Done
        } else {
            SectorStep::Look
        }
    }

    /// What a transfer does on a status: wait until the drive wants data,
    /// move one sector and, when writing, wait until it is on the drive.
    pub open spec fn stepped(self, status: u8) -> (SectorRun, SectorStep) {
        if self.done >= self.count {
            (self, SectorStep::Done)
        } else {
            match self.awaiting {
                Awaiting::Data => if status & 0x80 != 0 {
                    self.looked("ATA: DRQ never set")
                } else if status & 0x01 != 0 {
                    (self, SectorStep::Failed("ATA: drive error"))
                } else if status & 0x08 != 0 {
                    (
                        SectorRun { spins: 0, awaiting: Awaiting::Move, ..self },
                        SectorStep::Move(self.done),
                    )
                } else {
                    self.looked("ATA: DRQ never set")
                },
                Awaiting::Move => if self.write {
                    (SectorRun { spins: 0, awaiting: Awaiting::Idle, ..self }, SectorStep::Look)
                } else {
                    (self.sector_through(), self.sector_through().onward())
                },
                Awaiting::Idle => if status & 0x80 != 0 {
                    self.looked("ATA: write never completed")
                } else if status & 0x01 != 0 {
                    (self, SectorStep::Failed("ATA: write error"))
                } else {
                    (self.sector_through(), self.sector_through().onward())
                },
            }
        }
    }

    pub fn new(count: usize, write: bool) -> (r: SectorRun)
        ensures
            r.wf(),
            r == (SectorRun { write, count, done: 0, spins: 0, awaiting: Awaiting::Data }),
    {
        SectorRun { write, count, done: 0, spins: 0, awaiting: Awaiting::Data }
    }

    fn look_again(&mut self, message: &'static str) -> (r: SectorStep)
        requires
            old(self).wf(),
        ensures
            final(self).wf(),
            (*final(self), r) == old(self).looked(message),
    {
        if self.spins + 1 >= BUSY_WAIT_ITERATIONS {
            return SectorStep::Failed(message);
        }
        self.spins = self.spins + 1;
        SectorStep::Look
    }

    fn next_sector(&mut self) -> (r: SectorStep)
        requires
            old(self).wf(),
            old(self).done < old(self).count,
        ensures
            final(self).wf(),
            (*final(self), r) == (old(self).sector_through(), old(self).sector_through().onward()),
    {
        self.done = self.done + 1;
        self.spins = 0;
        self.awaiting = Awaiting::Data;
        if self.done >= self.count {
            SectorStep::Done
        } else {
            SectorStep::Look
        }
    }

    /// Takes a transfer one step further. `status` is what was read last; it
    /// is not looked at right after a sector was moved.
    pub fn step(&mut self, status: u8) -> (r: SectorStep)
        requires
            old(self).wf(),
        ensures
            final(self).wf(),
            (*final(self), r) == old(self).stepped(status),
    {
        if self.done >= self.count {
            return SectorStep::Done;
        }
        match self.awaiting {
            Awaiting::Data => match wait_drq(status) {
                WaitStep::Busy => self.look_again("ATA: DRQ never set"),
                WaitStep::Failed(e) => SectorStep::Failed(e),
                WaitStep::Ready => {
                    self.spins = 0;
                    self.awaiting = Awaiting::Move;
                    SectorStep::Move(self.done)
                },
            },
            Awaiting::Move => if self.write {
                self.spins = 0;
                self.awaiting = Awaiting::Idle;
                SectorStep::Look
            } else {
                self.next_sector()
            },
            Awaiting::Idle => match wait_idle(status) {
                WaitStep::Busy => self.look_again("ATA: write never completed"),
                WaitStep::Failed(e) => SectorStep::Failed(e),
                WaitStep::Ready => self.next_sector(),
            },
        }
    }
}

/// A drive that is ready whenever it is looked at, and reports no error,
/// takes the sectors one by one, in order: two steps each for a read, three
/// for a write.
pub proof fn law_ready_drive_moves_each_sector(r: SectorRun, ready: u8)
    requires
        r.wf(),
        r.done < r.count,
        r.awaiting == Awaiting::Data,
        ready & 0x80 == 0,
        ready & 0x01 == 0,
        ready & 0x08 != 0,
    ensures
        ({
            let (a, first) = r.stepped(ready);
            let (b, second) = a.stepped(ready);
            let (c, third) = b.stepped(ready);
            &&& first == SectorStep::Move(r.done)
            &&& if r.write {
                second == SectorStep::Look && (c, third) == (
                    r.sector_through(),
                    r.sector_through().onward(),
                )
            } else {
                (b, second) == (r.sector_through(), r.sector_through().onward())
            }
        }),
{
}

/// What a slot answered to IDENTIFY.
pub struct Probe {
    /// The status right after the command.
    pub first_status: u8,
    /// Whether the drive stopped being busy in time.
    pub idle: bool,
    /// The status then, and the two signature registers.
    pub status: u8,
    pub mid: u8,
    pub hi: u8,
    /// Whether the drive then offered its data in time.
    pub offered: bool,
    pub words: Vec<u16>,
    /// The sectors on the drive.
    pub media: Vec<u8>,
}

/// Whether the first identify word is that of a disk.
pub open spec fn disk_word(w: u16) -> bool {
    w == 0x0000 || w == 0x0040 || w == 0x0400
}

/// The model name in the identify words.
pub open spec fn model_bytes(words: Seq<u16>) -> Seq<u8> {
    Seq::new(
        40,
        |i: int|
            if i % 2 == 0 {
                (words[27 + i / 2] / 256) as u8
            } else {
                (words[27 + i / 2] % 256) as u8
            },
    )
}

/// Evaluates one drive's answer to IDENTIFY. `None` for empty slots; ATAPI
/// devices (e.g. the boot CD) come back with `atapi = true` so the
/// filesystem layer can skip them.
pub fn identify(base: u16, master: bool, probe: Probe) -> (r: Option<AtaDevice>)
    requires
        probe.words@.len() == 256,
    ensures
        ({
            let err = probe.status & 0x01 != 0;
            if probe.first_status == 0 || !probe.idle {
                r is None
            } else if err {
                if probe.mid == 0x14 && probe.hi == 0xEB {
                    &&& r matches Some(d)
                    &&& d.base == base && d.master == master && d.present && d.atapi && !d.lba48
                    &&& d.sectors == 0 && d.model@ == Seq::new(40, |i: int| 0u8)
                    &&& d.media@ == probe.media@
                } else {
                    r is None
                }
            } else if !probe.offered || !disk_word(probe.words@[0]) {
                r is None
            } else {
                &&& r matches Some(d)
                &&& d.base == base && d.master == master && d.present && !d.atapi
                &&& d.lba48 == (probe.words@[83] & 0x400 != 0)
                &&& d.sectors == probe.words@[61] * 0x1_0000 + probe.words@[60]
                &&& d.model@ == model_bytes(probe.words@)
                &&& d.media@ == probe.media@
            }
        }),
{
    if probe.first_status == 0 {
        return None;
    }
    if !probe.idle {
        return None;
    }
    let mut model: [u8; 40] = [0u8; 40];
    if probe.status & STATUS_ERR != 0 {
        if probe.mid == 0x14 && probe.hi == 0xEB {
            assert(model@ =~= Seq::new(40, |i: int| 0u8));
            return Some(
                AtaDevice {
                    base,
                    master,
                    present: true,
                    atapi: true,
                    lba48: false,
                    sectors: 0,
                    model,
                    media: probe.media,
                },
            );
        }
        return None;
    }
    if !probe.offered {
        return None;
    }
    let words = probe.words;
    if words[0] == 0x0000 || words[0] == 0x0040 || words[0] == 0x0400 {
        let mut i: usize = 0;
        while i < 20
            invariant
                i <= 20,
                words@.len() == 256,
                forall|k: int| 0 <= k < 2 * i ==> #[trigger] model@[k] == model_bytes(words@)[k],
            decreases 20 - i,
        {
            let word = words[27 + i];
            model[i * 2] = (word / 256) as u8;
            model[i * 2 + 1] = (word % 256) as u8;
            i += 1;
        }
        assert(model@ =~= model_bytes(words@));
        return Some(
            AtaDevice {
                base,
                master,
                present: true,
                atapi: false,
                lba48: words[83] & 0x400 != 0,
                sectors: words[61] as u64 * 0x1_0000 + words[60] as u64,
                model,
                media: probe.media,
            },
        );
    }
    None
}

/// The drives that were found, in probing order.
pub fn init(probed: Vec<Option<AtaDevice>>) -> (r: Vec<AtaDevice>)
    ensures
        r@ == found(probed@),
{
    let ghost all = probed@;
    let mut rest = probed;
    let mut out: Vec<AtaDevice> = Vec::new();
    assert(all.skip(0) =~= all);
    let ghost mut k: int = 0;
    while rest.len() > 0
        invariant
            0 <= k <= all.len(),
            rest@ == all.skip(k),
            out@ + found(rest@) == found(all),
        decreases rest@.len(),
    {
        let ghost before = out@;
        let ghost tail = rest@;
        let first = rest.remove(0);
        assert(rest@ =~= tail.skip(1));
        assert(rest@ =~= all.skip(k + 1));
        proof {
            k = k + 1;
        }
        if let Some(device) = first {
            out.push(device);
            assert(before + (seq![device] + found(rest@)) =~= out@ + found(rest@));
        }
    }
    assert(out@ + found(rest@) =~= out@);
    out
}

/// The drives among the slots.
pub open spec fn found(probed: Seq<Option<AtaDevice>>) -> Seq<AtaDevice>
    decreases probed.len(),
{
    if probed.len() == 0 {
        Seq::empty()
    } else {
        match probed[0] {
            Some(d) => seq![d] + found(probed.skip(1)),
            None => found(probed.skip(1)),
        }
    }
}

pub fn count(devices: &Vec<AtaDevice>) -> (r: usize)
    ensures
        r == devices@.len(),
{
    devices.len()
}

pub fn device(devices: &Vec<AtaDevice>, index: usize) -> (r: Option<&AtaDevice>)
    ensures
        r is Some <==> index < devices@.len(),
        r matches Some(d) ==> *d == devices@[index as int],
{
    if index < devices.len() {
        Some(&devices[index])
    } else {
        None
    }
}

/// A model name, or a stand-in for an empty one.
pub open spec fn shown_model(model: Seq<u8>) -> Seq<char> {
    if model_text(model).len() == 0 {
        "(unnamed)"@
    } else {
        model_text(model)
    }
}

/// One line about a drive.
pub open spec fn description(index: nat, d: AtaDevice) -> Seq<char> {
    "["@ + dec(index) + "] "@ + (if d.atapi { "ATAPI"@ } else { "ATA"@ }) + " "@ + shown_model(
        d.model@,
    ) + " ("@ + dec(d.sectors as nat / 2048) + " MiB, LBA"@ + (if d.lba48 { "48"@ } else { "28"@ })
        + ")"@
}

/// Appends a drive's model name, or a stand-in for an empty one.
pub fn push_model(out: &mut Vec<char>, d: &AtaDevice)
    ensures
        final(out)@ == old(out)@ + shown_model(d.model@),
{
    let model = d.model_string();
    let chars = crate::text::chars_of(model.as_str());
    if chars.len() == 0 {
        push_str(out, "(unnamed)");
    } else {
        push_str(out, model.as_str());
    }
}

/// Describes a drive in one line.
pub fn describe(devices: &Vec<AtaDevice>, index: usize) -> (r: Option<String>)
    ensures
        r is Some <==> index < devices@.len(),
        r matches Some(s) ==> s@ == description(index as nat, devices@[index as int]),
{
    if index >= devices.len() {
        return None;
    }
    let d = &devices[index];
    let mut out: Vec<char> = Vec::new();
    push_str(&mut out, "[");
    push_dec(&mut out, index as u64);
    push_str(&mut out, "] ");
    push_str(&mut out, if d.atapi { "ATAPI" } else { "ATA" });
    push_str(&mut out, " ");
    push_model(&mut out, d);
    push_str(&mut out, " (");
    push_dec(&mut out, d.sectors / 2048);
    push_str(&mut out, " MiB, LBA");
    push_str(&mut out, if d.lba48 { "48" } else { "28" });
    push_str(&mut out, ")");
    assert(out@ =~= description(index as nat, *d));
    Some(string_of(&out))
}

/// What was written to a sector is what a read of it gives, and other
/// sectors keep what they held.
pub proof fn law_read_after_write(d: Drive, lba: int, other: int, bytes: Seq<u8>)
    requires
        bytes.len() == 512,
        0 <= lba,
        0 <= other,
        (lba + 1) * 512 <= d.media.len(),
        (other + 1) * 512 <= d.media.len(),
    ensures
        ({
            let after = Drive { media: splice(d.media, lba * 512, bytes), ..d };
            sectors_at(after, other, 1) == if other == lba {
                bytes
            } else {
                sectors_at(d, other, 1)
            }
        }),
{
    let after = Drive { media: splice(d.media, lba * 512, bytes), ..d };
    assert(sectors_at(after, other, 1) =~= if other == lba {
        bytes
    } else {
        sectors_at(d, other, 1)
    });
}

/// The command writes hand the drive the sector count and the low 24 bits of
/// the sector number, a byte to each of its registers, before the command.
pub proof fn law_taskfile_registers(base: u16, drive: u8, count: u8, lba: u64, command: u8)
    requires
        base <= 0xFFF8,
    ensures
        ({
            let w = taskfile(base, drive, count, lba, command);
            &&& w.len() == 6
            &&& w[0].port == base + 6 && w[0].value == drive
            &&& w[1].port == base + 2 && w[1].value == count
            &&& w[2].port == base + 3 && w[3].port == base + 4 && w[4].port == base + 5
            &&& w[2].value + w[3].value * 0x100 + w[4].value * 0x1_0000 == lba % 0x100_0000
            &&& w[5].port == base + 7 && w[5].value == command
        }),
{
    let w = taskfile(base, drive, count, lba, command);
    let (a, b, c) = (lba % 0x100, lba / 0x100 % 0x100, lba / 0x1_0000 % 0x100);
    assert(lba % 0x100_0000 == a + b * 0x100 + c * 0x1_0000);
}

/// The model name is forty bytes, the high byte of each identify word before
/// the low one, from word 27 on.
pub proof fn law_model_bytes(words: Seq<u16>, i: int)
    requires
        words.len() == 256,
        0 <= i < 20,
    ensures
        model_bytes(words).len() == 40,
        model_bytes(words)[2 * i] * 0x100 + model_bytes(words)[2 * i + 1] == words[27 + i],
{
}

} // verus!
