//! Intel 82540EM (e1000): bringing the card up, and the two descriptor
//! rings it shares with the driver. Polled, no interrupts.

use crate::bytes::{le16_bytes, le32_bytes};
use crate::e1000::{mac_from_registers, DMA_LIMIT, NUM_DESC, RX_BUF_SIZE};
use crate::pci::{find_device, Bus};
use vstd::prelude::*;

verus! {

pub const VENDOR_INTEL: u16 = 0x8086;

pub const DEV_E1000_82540EM: u16 = 0x100E;

pub const REG_CTRL: u32 = 0x0000;

pub const REG_RCTL: u32 = 0x0100;

pub const REG_TCTL: u32 = 0x0400;

pub const REG_TIPG: u32 = 0x0410;

pub const REG_RDBAL: u32 = 0x2800;

pub const REG_RDBAH: u32 = 0x2804;

pub const REG_RDLEN: u32 = 0x2808;

pub const REG_RDH: u32 = 0x2810;

pub const REG_RDT: u32 = 0x2818;

pub const REG_TDBAL: u32 = 0x3800;

pub const REG_TDBAH: u32 = 0x3804;

pub const REG_TDLEN: u32 = 0x3808;

pub const REG_TDH: u32 = 0x3810;

pub const REG_TDT: u32 = 0x3818;

pub const REG_RAL0: u32 = 0x5400;

pub const REG_RAH0: u32 = 0x5404;

pub const CTRL_RST: u32 = 0x400_0000;

pub const CTRL_SLU: u32 = 0x40;

/// Reception on, broadcast and multicast accepted, CRC stripped.
pub const RCTL_VALUE: u32 = 0x400_8012;

/// Transmission on, short packets padded.
pub const TCTL_VALUE: u32 = 0x0A;

/// End of packet, insert the checksum, report the status.
pub const TX_COMMAND: u8 = 0x0B;

/// How often the reset bit is looked at.
pub const RESET_SPINS: u32 = 2_000_000;

/// How often a transmit descriptor is looked at.
pub const TX_SPINS: u32 = 100_000;

/// A receive descriptor.
#[derive(Clone, Copy, Debug, PartialEq, Eq, Structural)]
pub struct RxDesc {
    pub addr: u64,
    pub length: u16,
    pub checksum: u16,
    pub status: u8,
    pub errors: u8,
    pub special: u16,
}

/// A transmit descriptor.
#[derive(Clone, Copy, Debug, PartialEq, Eq, Structural)]
pub struct TxDesc {
    pub addr: u64,
    pub length: u16,
    pub cso: u8,
    pub cmd: u8,
    pub status: u8,
    pub css: u8,
    pub special: u16,
}

/// A fresh receive descriptor for the buffer at `addr`.
pub open spec fn fresh_rx(addr: u64) -> RxDesc {
    RxDesc { addr, length: 0, checksum: 0, status: 0, errors: 0, special: 0 }
}

/// A cleared transmit descriptor.
pub open spec fn blank_tx() -> TxDesc {
    TxDesc { addr: 0, length: 0, cso: 0, cmd: 0, status: 0, css: 0, special: 0 }
}

/// The rings, where they are, and whose turn it is.
pub struct Rings {
    pub rx_ring: u64,
    pub tx_ring: u64,
    pub tx_buf: u64,
    pub rx_buffers: Vec<u64>,
    pub rx: Vec<RxDesc>,
    pub tx: Vec<TxDesc>,
    pub rx_cur: usize,
    pub tx_cur: usize,
}

impl Rings {
    pub open spec fn wf(&self) -> bool {
        &&& self.rx_buffers@.len() == NUM_DESC
        &&& self.rx@.len() == NUM_DESC
        &&& self.tx@.len() == NUM_DESC
        &&& self.rx_cur < NUM_DESC
        &&& self.tx_cur < NUM_DESC
    }

    /// Whether all of it lies where the card can reach it.
    pub open spec fn reachable(&self) -> bool {
        &&& self.rx_ring < DMA_LIMIT
        &&& self.tx_ring < DMA_LIMIT
        &&& self.tx_buf < DMA_LIMIT
        &&& forall|i: int|
            0 <= i < self.rx_buffers@.len() ==> #[trigger] self.rx_buffers@[i] < DMA_LIMIT
    }
}

/// What is wrong with the receive buffers from `i` on.
pub open spec fn buffer_fault(buffers: Seq<Option<u64>>, i: int) -> Option<&'static str>
    decreases buffers.len() - i,
{
    if i >= buffers.len() {
        None
    } else {
        match buffers[i] {
            None => Some("no memory for RX buffers"),
            Some(a) => if a >= DMA_LIMIT {
                Some("e1000: DMA buffer above 4 GiB (82540EM is 32-bit)")
            } else {
                buffer_fault(buffers, i + 1)
            },
        }
    }
}

/// Why the rings cannot be set up in these frames.
pub open spec fn ring_fault(
    rx_ring: Option<u64>,
    tx_ring: Option<u64>,
    tx_buf: Option<u64>,
    buffers: Seq<Option<u64>>,
) -> Option<&'static str> {
    if rx_ring is None {
        Some("no memory for RX ring")
    } else if tx_ring is None {
        Some("no memory for TX ring")
    } else if tx_buf is None {
        Some("no memory for TX buffer")
    } else if rx_ring->0 >= DMA_LIMIT || tx_ring->0 >= DMA_LIMIT || tx_buf->0 >= DMA_LIMIT {
        Some("e1000: DMA ring above 4 GiB (82540EM is 32-bit)")
    } else {
        buffer_fault(buffers, 0)
    }
}

/// Sets the rings up in cleared frames, `None` for one that could not be
/// had: every receive descriptor gets its buffer.
pub fn init_rings(
    rx_ring: Option<u64>,
    tx_ring: Option<u64>,
    tx_buf: Option<u64>,
    buffers: &Vec<Option<u64>>,
) -> (r: Result<Rings, &'static str>)
    requires
        buffers@.len() == NUM_DESC,
    ensures
        match ring_fault(rx_ring, tx_ring, tx_buf, buffers@) {
            Some(e) => r is Err && r->Err_0 == e,
            None => {
                &&& r matches Ok(g)
                &&& g.wf()
                &&& g.reachable()
                &&& g.rx_ring == rx_ring->0
                &&& g.tx_ring == tx_ring->0
                &&& g.tx_buf == tx_buf->0
                &&& g.rx_cur == 0
                &&& g.tx_cur == 0
                &&& forall|i: int|
                    0 <= i < NUM_DESC ==> #[trigger] g.rx@[i] == fresh_rx(buffers@[i]->0)
                &&& forall|i: int|
                    0 <= i < NUM_DESC ==> #[trigger] g.rx_buffers@[i] == buffers@[i]->0
                &&& forall|i: int| 0 <= i < NUM_DESC ==> #[trigger] g.tx@[i] == blank_tx()
            },
        },
{
    let rx_at = match rx_ring {
        None => {
            return Err("no memory for RX ring");
        },
        Some(a) => a,
    };
    let tx_at = match tx_ring {
        None => {
            return Err("no memory for TX ring");
        },
        Some(a) => a,
    };
    let buf_at = match tx_buf {
        None => {
            return Err("no memory for TX buffer");
        },
        Some(a) => a,
    };
    if rx_at >= DMA_LIMIT || tx_at >= DMA_LIMIT || buf_at >= DMA_LIMIT {
        return Err("e1000: DMA ring above 4 GiB (82540EM is 32-bit)");
    }
    let mut rx: Vec<RxDesc> = Vec::new();
    let mut tx: Vec<TxDesc> = Vec::new();
    let mut rx_buffers: Vec<u64> = Vec::new();
    let mut i: usize = 0;
    while i < NUM_DESC
        invariant
            i <= NUM_DESC,
            buffers@.len() == NUM_DESC,
            rx@.len() == i,
            tx@.len() == i,
            rx_buffers@.len() == i,
            ring_fault(rx_ring, tx_ring, tx_buf, buffers@) == buffer_fault(buffers@, i as int),
            forall|k: int| 0 <= k < i ==> #[trigger] rx@[k] == fresh_rx(buffers@[k]->0),
            forall|k: int| 0 <= k < i ==> #[trigger] tx@[k] == blank_tx(),
            forall|k: int|
                0 <= k < i ==> #[trigger] rx_buffers@[k] == buffers@[k]->0 && rx_buffers@[k]
                    < DMA_LIMIT,
        decreases NUM_DESC - i,
    {
        let addr = match buffers[i] {
            None => {
                return Err("no memory for RX buffers");
            },
            Some(a) => a,
        };
        if addr >= DMA_LIMIT {
            return Err("e1000: DMA buffer above 4 GiB (82540EM is 32-bit)");
        }
        rx_buffers.push(addr);
        rx.push(RxDesc { addr, length: 0, checksum: 0, status: 0, errors: 0, special: 0 });
        tx.push(TxDesc { addr: 0, length: 0, cso: 0, cmd: 0, status: 0, css: 0, special: 0 });
        i += 1;
    }
    Ok(
        Rings {
            rx_ring: rx_at,
            tx_ring: tx_at,
            tx_buf: buf_at,
            rx_buffers,
            rx,
            tx,
            rx_cur: 0,
            tx_cur: 0,
        },
    )
}

/// The place behind `i` in a ring.
pub open spec fn after(i: int) -> int {
    (i + 1) % (NUM_DESC as int)
}

/// What a look at a transmit descriptor comes to.
#[derive(Clone, Copy, Debug, PartialEq, Eq, Structural)]
pub enum TxPoll {
    Again,
    Sent,
    TimedOut,
}

/// A received frame in its buffer.
#[derive(Clone, Copy, Debug, PartialEq, Eq, Structural)]
pub struct Received {
    /// The buffer that holds it, and how many of its bytes.
    pub buffer: u64,
    pub len: usize,
    /// The value for the receive tail register.
    pub tail: u32,
}

impl Rings {
    /// Fills the next transmit descriptor for a frame of `len` bytes in the
    /// transmit buffer. Returns the value for the transmit tail register:
    /// the card sends from the old tail to the new.
    pub fn post(&mut self, len: usize) -> (r: u32)
        requires
            old(self).wf(),
            0 < len <= RX_BUF_SIZE,
        ensures
            final(self).wf(),
            r == after(old(self).tx_cur as int),
            final(self).tx_cur == r,
            final(self).tx@ == old(self).tx@.update(
                old(self).tx_cur as int,
                (TxDesc {
                    addr: old(self).tx_buf,
                    length: len as u16,
                    cmd: TX_COMMAND,
                    status: 0,
                    ..old(self).tx@[old(self).tx_cur as int]
                }),
            ),
            *final(self) == (Rings {
                tx: final(self).tx,
                tx_cur: final(self).tx_cur,
                ..*old(self)
            }),
    {
        let idx = self.tx_cur;
        let old_desc = self.tx[idx];
        self.tx.set(
            idx,
            TxDesc {
                addr: self.tx_buf,
                length: len as u16,
                cso: old_desc.cso,
                cmd: TX_COMMAND,
                status: 0,
                css: old_desc.css,
                special: old_desc.special,
            },
        );
        self.tx_cur = (idx + 1) % NUM_DESC;
        self.tx_cur as u32
    }

    /// Takes the frame in the current receive descriptor, if the card is
    /// done with it, and hands the descriptor back.
    pub fn take(&mut self) -> (r: Option<Received>)
        requires
            old(self).wf(),
        ensures
            final(self).wf(),
            ({
                let i = old(self).rx_cur as int;
                let d = old(self).rx@[i];
                if d.status & 1 == 0 {
                    r is None && *final(self) == *old(self)
                } else {
                    &&& r == Some(
                        Received {
                            buffer: old(self).rx_buffers@[i],
                            len: if d.length <= RX_BUF_SIZE {
                                d.length as usize
                            } else {
                                RX_BUF_SIZE
                            },
                            tail: i as u32,
                        },
                    )
                    &&& final(self).rx_cur == after(i)
                    &&& final(self).rx@ == old(self).rx@.update(
                        i,
                        (RxDesc { length: 0, status: 0, ..d }),
                    )
                    &&& *final(self) == (Rings {
                        rx: final(self).rx,
                        rx_cur: final(self).rx_cur,
                        ..*old(self)
                    })
                }
            }),
    {
        let idx = self.rx_cur;
        let d = self.rx[idx];
        if d.status & 1 == 0 {
            return None;
        }
        let mut len = d.length as usize;
        if len > RX_BUF_SIZE {
            len = RX_BUF_SIZE;
        }
        self.rx.set(
            idx,
            RxDesc {
                addr: d.addr,
                length: 0,
                checksum: d.checksum,
                status: 0,
                errors: d.errors,
                special: d.special,
            },
        );
        self.rx_cur = (idx + 1) % NUM_DESC;
        Some(Received { buffer: self.rx_buffers[idx], len, tail: idx as u32 })
    }
}

/// One look at the status of a posted descriptor, after `spins` that found
/// it not done.
pub fn poll_tx(status: u8, spins: u32) -> (r: TxPoll)
    ensures
        r == if status & 1 != 0 {
            TxPoll::Sent
        } else if spins >= TX_SPINS {
            TxPoll::TimedOut
        } else {
            TxPoll::Again
        },
{
    if status & 1 != 0 {
        TxPoll::Sent
    } else if spins >= TX_SPINS {
        TxPoll::TimedOut
    } else {
        TxPoll::Again
    }
}

// ---------------------------------------------------------------------
// Bring-up
// ---------------------------------------------------------------------

/// Finds the card on the PCI bus: the first function with its ids.
pub fn locate(bus: &Bus) -> (r: Result<(u8, u8, u8), &'static str>)
    requires
        bus.wf(),
    ensures
        match r {
            Ok((b, dev, func)) => {
                &&& b == 0 && dev < 32 && func < 8
                &&& bus.answers(dev as int, func as int, VENDOR_INTEL, DEV_E1000_82540EM)
                &&& forall|d: int, f: int|
                    0 <= f < 8 && 0 <= d && (d < dev || d == dev && f < func)
                        ==> !#[trigger] bus.answers(d, f, VENDOR_INTEL, DEV_E1000_82540EM)
            },
            Err(e) => {
                &&& e == "e1000 (82540EM) not found on PCI bus 0"
                &&& forall|d: int, f: int|
                    0 <= d < 32 && 0 <= f < 8 ==> !#[trigger] bus.answers(
                        d,
                        f,
                        VENDOR_INTEL,
                        DEV_E1000_82540EM,
                    )
            },
        },
{
    match find_device(bus, VENDOR_INTEL, DEV_E1000_82540EM) {
        Some(at) => Ok(at),
        None => Err("e1000 (82540EM) not found on PCI bus 0"),
    }
}

/// The PCI command word that turns on memory and I/O decoding and bus
/// mastering.
pub fn enabled_command(command: u32) -> (r: u32)
    ensures
        r == command | 7,
{
    command | 7
}

/// Where the card's registers are.
pub fn register_base(bar: u32) -> (r: Result<u32, &'static str>)
    ensures
        r == if bar < 16 {
            Err::<u32, &'static str>("e1000 BAR0 not assigned")
        } else {
            Ok((bar / 16 * 16) as u32)
        },
{
    let base = bar / 16 * 16;
    if base == 0 {
        Err("e1000 BAR0 not assigned")
    } else {
        Ok(base)
    }
}

/// Where the bring-up stands. The `See` phases wait for the value of a
/// register.
#[derive(Clone, Copy, Debug, PartialEq, Eq, Structural)]
pub enum Phase {
    Start,
    SeeControl,
    PollReset,
    SeeReset,
    SeeLow,
    SeeHigh,
    NeedFrames,
    PollLink,
    SeeLink,
    Ready,
    Stuck,
}

/// What the bring-up asks for next.
pub enum Step {
    /// Read a register and come back with its value.
    Read(u32),
    /// Write a register.
    Write(u32, u32),
    /// Give the card its frames with `take_frames`.
    Frames,
    /// Write these registers in order.
    Configure(Vec<(u32, u32)>),
    /// The card runs.
    Ready,
    Fail(&'static str),
}

pub struct Bringup {
    pub phase: Phase,
    pub spins: u32,
    pub low: u32,
    pub mac: [u8; 6],
}

/// The station address in the two receive-address registers.
pub open spec fn station(low: u32, high: u32) -> Seq<u8> {
    le32_bytes(low) + le16_bytes((high % 0x1_0000) as u16)
}

/// Whether an address is all zeroes.
pub open spec fn no_station(mac: Seq<u8>) -> bool {
    forall|i: int| 0 <= i < mac.len() ==> #[trigger] mac[i] == 0
}

/// The registers that put the rings into service.
pub open spec fn ring_registers(rx_ring: u64, tx_ring: u64) -> Seq<(u32, u32)> {
    seq![
        (REG_RDBAL, (rx_ring % 0x1_0000_0000) as u32),
        (REG_RDBAH, 0u32),
        (REG_RDLEN, 512u32),
        (REG_RDH, 0u32),
        (REG_RDT, 31u32),
        (REG_RCTL, RCTL_VALUE),
        (REG_TDBAL, (tx_ring % 0x1_0000_0000) as u32),
        (REG_TDBAH, 0u32),
        (REG_TDLEN, 512u32),
        (REG_TDH, 0u32),
        (REG_TDT, 0u32),
        (REG_TCTL, TCTL_VALUE),
        (REG_TIPG, 10u32),
    ]
}

impl Bringup {
    pub fn new() -> (r: Self)
        ensures
            r.phase == Phase::Start,
            r.spins == 0,
    {
        Bringup { phase: Phase::Start, spins: 0, low: 0, mac: [0u8; 6] }
    }

    /// One step; `value` is that of the register that the last step asked
    /// to read: the card is reset, its address is read, its rings are put
    /// into service and its link is forced up.
    pub fn init(&mut self, value: u32) -> (r: Step)
        requires
            old(self).spins <= RESET_SPINS,
        ensures
            final(self).spins <= RESET_SPINS,
            old(self).phase != Phase::SeeHigh ==> final(self).mac == old(self).mac,
            match old(self).phase {
                Phase::Start => final(self).phase == Phase::SeeControl && r == Step::Read(REG_CTRL),
                Phase::SeeControl => final(self).phase == Phase::PollReset && r == Step::Write(
                    REG_CTRL,
                    value | CTRL_RST,
                ),
                Phase::PollReset => final(self).phase == Phase::SeeReset && final(self).spins == 0
                    && r == Step::Read(REG_CTRL),
                Phase::SeeReset => if value & CTRL_RST == 0 {
                    final(self).phase == Phase::SeeLow && r == Step::Read(REG_RAL0)
                } else if old(self).spins >= RESET_SPINS {
                    final(self).phase == Phase::Stuck && r == Step::Fail("e1000 reset timeout")
                } else {
                    final(self).phase == Phase::SeeReset && final(self).spins == old(self).spins
                        + 1 && r == Step::Read(REG_CTRL)
                },
                Phase::SeeLow => final(self).phase == Phase::SeeHigh && final(self).low == value
                    && r == Step::Read(REG_RAH0),
                Phase::SeeHigh => {
                    &&& final(self).mac@ == station(old(self).low, value)
                    &&& if no_station(station(old(self).low, value)) {
                        final(self).phase == Phase::Stuck && r == Step::Fail(
                            "e1000 MAC is all zeroes",
                        )
                    } else {
                        final(self).phase == Phase::NeedFrames && r is Frames
                    }
                },
                Phase::NeedFrames => final(self).phase == Phase::NeedFrames && r is Frames,
                Phase::PollLink => final(self).phase == Phase::SeeLink && r == Step::Read(REG_CTRL),
                Phase::SeeLink => final(self).phase == Phase::Ready && r == Step::Write(
                    REG_CTRL,
                    value | CTRL_SLU,
                ),
                Phase::Ready => final(self).phase == Phase::Ready && r is Ready,
                Phase::Stuck => final(self).phase == Phase::Stuck && r == Step::Fail(
                    "e1000 init failed",
                ),
            },
    {
        match self.phase {
            Phase::Start => {
                self.phase = Phase::SeeControl;
                Step::Read(REG_CTRL)
            },
            Phase::SeeControl => {
                self.phase = Phase::PollReset;
                Step::Write(REG_CTRL, value | CTRL_RST)
            },
            Phase::PollReset => {
                self.phase = Phase::SeeReset;
                self.spins = 0;
                Step::Read(REG_CTRL)
            },
            Phase::SeeReset => {
                if value & CTRL_RST == 0 {
                    self.phase = Phase::SeeLow;
                    Step::Read(REG_RAL0)
                } else if self.spins >= RESET_SPINS {
                    self.phase = Phase::Stuck;
                    Step::Fail("e1000 reset timeout")
                } else {
                    self.spins = self.spins + 1;
                    Step::Read(REG_CTRL)
                }
            },
            Phase::SeeLow => {
                self.phase = Phase::SeeHigh;
                self.low = value;
                Step::Read(REG_RAH0)
            },
            Phase::SeeHigh => {
                let mac = mac_from_registers(self.low, value);
                self.mac = mac;
                if mac[0] == 0 && mac[1] == 0 && mac[2] == 0 && mac[3] == 0 && mac[4] == 0
                    && mac[5] == 0 {
                    self.phase = Phase::Stuck;
                    Step::Fail("e1000 MAC is all zeroes")
                } else {
                    assert(mac@.len() == 6);
                    assert(mac@[0] == mac[0] && mac@[1] == mac[1] && mac@[2] == mac[2]);
                    assert(mac@[3] == mac[3] && mac@[4] == mac[4] && mac@[5] == mac[5]);
                    self.phase = Phase::NeedFrames;
                    Step::Frames
                }
            },
            Phase::NeedFrames => Step::Frames,
            Phase::PollLink => {
                self.phase = Phase::SeeLink;
                Step::Read(REG_CTRL)
            },
            Phase::SeeLink => {
                self.phase = Phase::Ready;
                Step::Write(REG_CTRL, value | CTRL_SLU)
            },
            Phase::Ready => Step::Ready,
            Phase::Stuck => Step::Fail("e1000 init failed"),
        }
    }

    /// Puts the rings into service, or fails with what was wrong with their
    /// frames.
    pub fn take_frames(&mut self, rings: &Result<Rings, &'static str>) -> (r: Step)
        ensures
            final(self).mac == old(self).mac,
            match rings {
                Err(e) => final(self).phase == Phase::Stuck && r == Step::Fail(*e),
                Ok(g) => final(self).phase == Phase::PollLink && (r matches Step::Configure(w)
                    && w@ == ring_registers(g.rx_ring, g.tx_ring)),
            },
    {
        match rings {
            Err(e) => {
                self.phase = Phase::Stuck;
                Step::Fail(*e)
            },
            Ok(g) => {
                self.phase = Phase::PollLink;
                let w = vec![
                    (REG_RDBAL, (g.rx_ring % 0x1_0000_0000) as u32),
                    (REG_RDBAH, 0u32),
                    (REG_RDLEN, 512u32),
                    (REG_RDH, 0u32),
                    (REG_RDT, 31u32),
                    (REG_RCTL, RCTL_VALUE),
                    (REG_TDBAL, (g.tx_ring % 0x1_0000_0000) as u32),
                    (REG_TDBAH, 0u32),
                    (REG_TDLEN, 512u32),
                    (REG_TDH, 0u32),
                    (REG_TDT, 0u32),
                    (REG_TCTL, TCTL_VALUE),
                    (REG_TIPG, 10u32),
                ];
                assert(w@ =~= ring_registers(g.rx_ring, g.tx_ring));
                Step::Configure(w)
            },
        }
    }
}

/// The ring comes round: after as many steps as it has descriptors it is
/// where it was.
pub open spec fn steps(i: int, n: nat) -> int
    decreases n,
{
    if n == 0 {
        i
    } else {
        after(steps(i, (n - 1) as nat))
    }
}

/// Each of the descriptors has its turn once before the first is used
/// again: two places that are fewer than the ring's length of steps apart
/// differ, and that many steps lead back.
pub proof fn law_descriptors_take_turns(i: int, n: nat)
    requires
        0 <= i < NUM_DESC,
        n <= NUM_DESC,
    ensures
        0 <= steps(i, n) < NUM_DESC,
        0 < n < NUM_DESC ==> steps(i, n) != i,
        n == NUM_DESC ==> steps(i, n) == i,
{
    lemma_steps(i, n);
}

proof fn lemma_steps(i: int, n: nat)
    requires
        0 <= i < NUM_DESC,
        n <= NUM_DESC,
    ensures
        steps(i, n) == (i + n) % (NUM_DESC as int),
    decreases n,
{
    if n > 0 {
        lemma_steps(i, (n - 1) as nat);
    }
}

} // verus!
