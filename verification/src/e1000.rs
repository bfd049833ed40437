//! Intel 82540EM (e1000) network card: frames waiting to go out and frames
//! that came in.
//!
//! The descriptor rings belong to the hardware side. It says how many
//! transmit descriptors are free, sends the frames queued here, and hands
//! in the frames that the receive ring filled.

use std::collections::VecDeque;
use vstd::prelude::*;

verus! {

pub const RX_BUF_SIZE: usize = 2048;

pub const NUM_DESC: usize = 32;

/// DMA must stay below this address: the card is 32-bit.
pub const DMA_LIMIT: u64 = 4 * 1024 * 1024 * 1024;

const STATUS_LU: u32 = 2;

pub struct E1000 {
    up: bool,
    mac: [u8; 6],
    status: u32,
    tx_free: usize,
    tx: Vec<Vec<u8>>,
    rx: VecDeque<Vec<u8>>,
    rx_count: u64,
    tx_count: u64,
}

/// The card as the network stack sees it.
pub struct Nic {
    pub up: bool,
    pub mac: Seq<u8>,
    pub status: u32,
    /// Transmit descriptors that will complete.
    pub tx_free: nat,
    /// Frames to put on the wire, oldest first.
    pub tx: Seq<Seq<u8>>,
    /// Received frames, oldest first.
    pub rx: Seq<Seq<u8>>,
    pub rx_count: u64,
    pub tx_count: u64,
}

/// The frames as byte sequences.
pub open spec fn frames(v: Seq<Vec<u8>>) -> Seq<Seq<u8>> {
    Seq::new(v.len(), |i: int| v[i]@)
}

impl View for E1000 {
    type V = Nic;

    closed spec fn view(&self) -> Nic {
        Nic {
            up: self.up,
            mac: self.mac@,
            status: self.status,
            tx_free: self.tx_free as nat,
            tx: frames(self.tx@),
            rx: frames(self.rx@),
            rx_count: self.rx_count,
            tx_count: self.tx_count,
        }
    }
}

pub open spec fn plus_one(n: u64) -> u64 {
    if n == u64::MAX {
        0
    } else {
        (n + 1) as u64
    }
}

/// Why a frame of this length cannot be sent.
pub open spec fn send_error(n: Nic, len: nat) -> Option<&'static str> {
    if !n.up {
        Some("NIC not initialized")
    } else if len == 0 || len > 2048 {
        Some("bad packet size")
    } else if n.tx_free == 0 {
        Some("TX timeout")
    } else {
        None
    }
}

/// The card after an attempt to send a frame.
pub open spec fn after_send(n: Nic, frame: Seq<u8>) -> Nic {
    if send_error(n, frame.len()) is None {
        Nic {
            tx: n.tx.push(frame),
            tx_free: (n.tx_free - 1) as nat,
            tx_count: plus_one(n.tx_count),
            ..n
        }
    } else {
        n
    }
}

/// The card after its oldest received frame was taken.
pub open spec fn after_receive(n: Nic) -> Nic {
    Nic { rx: n.rx.skip(1), rx_count: plus_one(n.rx_count), ..n }
}

impl E1000 {
    /// No card, or one whose initialization failed.
    pub fn absent() -> (r: Self)
        ensures
            !r@.up,
            r@.rx.len() == 0,
            r@.tx.len() == 0,
            r@.rx_count == 0,
            r@.tx_count == 0,
            r@.tx_free == 0,
    {
        E1000 {
            up: false,
            mac: [0u8; 6],
            status: 0,
            tx_free: 0,
            tx: Vec::new(),
            rx: VecDeque::new(),
            rx_count: 0,
            tx_count: 0,
        }
    }

    /// Reports the state of the hardware: its status register and how many
    /// transmit descriptors will complete.
    pub fn refresh(&mut self, status: u32, tx_free: usize)
        ensures
            final(self)@ == (Nic { status, tx_free: tx_free as nat, ..old(self)@ }),
    {
        self.status = status;
        self.tx_free = tx_free;
    }

    /// Takes the frames to put on the wire.
    pub fn take_tx(&mut self) -> (r: Vec<Vec<u8>>)
        ensures
            frames(r@) == old(self)@.tx,
            final(self)@ == (Nic { tx: Seq::empty(), ..old(self)@ }),
    {
        let mut out: Vec<Vec<u8>> = Vec::new();
        let ghost all = self.tx@;
        out.append(&mut self.tx);
        assert(out@ =~= all);
        assert(frames(self.tx@) =~= Seq::<Seq<u8>>::empty());
        out
    }

    /// Hands in a frame that the receive ring filled, cut to the size of a
    /// receive buffer.
    pub fn receive(&mut self, frame: Vec<u8>)
        ensures
            final(self)@ == (Nic {
                rx: old(self)@.rx.push(
                    if frame@.len() <= 2048 {
                        frame@
                    } else {
                        frame@.take(2048)
                    },
                ),
                ..old(self)@
            }),
    {
        let mut frame = frame;
        let ghost whole = frame@;
        if frame.len() > RX_BUF_SIZE {
            frame.truncate(RX_BUF_SIZE);
            assert(frame@ =~= whole.take(2048));
        }
        let ghost kept = frame@;
        self.rx.push_back(frame);
        assert(frames(self.rx@) =~= old(self)@.rx.push(kept));
    }
}

/// The station address, out of the two receive-address registers.
pub fn mac_from_registers(ral: u32, rah: u32) -> (r: [u8; 6])
    ensures
        r@ == crate::bytes::le32_bytes(ral) + crate::bytes::le16_bytes((rah % 0x1_0000) as u16),
{
    let lo = (rah % 0x1_0000) as u16;
    let r = [
        (ral % 0x100) as u8,
        (ral / 0x100 % 0x100) as u8,
        (ral / 0x1_0000 % 0x100) as u8,
        (ral / 0x100_0000) as u8,
        (lo % 0x100) as u8,
        (lo / 0x100) as u8,
    ];
    assert(r@ =~= crate::bytes::le32_bytes(ral) + crate::bytes::le16_bytes(lo));
    r
}

/// Brings the driver up for a card with this address. One that is up
/// already stays as it is.
pub fn init(nic: &mut E1000, mac: [u8; 6])
    ensures
        final(nic)@ == if old(nic)@.up {
            old(nic)@
        } else {
            Nic { up: true, mac: mac@, rx_count: 0, tx_count: 0, ..old(nic)@ }
        },
{
    if nic.up {
        return;
    }
    nic.up = true;
    nic.mac = mac;
    nic.rx_count = 0;
    nic.tx_count = 0;
}

pub fn mac(nic: &E1000) -> (r: Option<[u8; 6]>)
    ensures
        r is Some <==> nic@.up,
        r matches Some(m) ==> m@ == nic@.mac,
{
    if nic.up {
        Some(nic.mac)
    } else {
        None
    }
}

/// Link status.
pub fn link_up(nic: &E1000) -> (r: bool)
    ensures
        r == (nic@.up && nic@.status & 2 != 0),
{
    nic.up && nic.status & STATUS_LU != 0
}

/// (rx_packets, tx_packets) counters.
pub fn stats(nic: &E1000) -> (r: (u64, u64))
    ensures
        r == if nic@.up {
            (nic@.rx_count, nic@.tx_count)
        } else {
            (0, 0)
        },
{
    if nic.up {
        (nic.rx_count, nic.tx_count)
    } else {
        (0, 0)
    }
}

/// Transmits one Ethernet frame.
pub fn send(nic: &mut E1000, packet: &[u8]) -> (r: Result<(), &'static str>)
    ensures
        r == match send_error(old(nic)@, packet@.len()) {
            Some(e) => Err::<(), &'static str>(e),
            None => Ok(()),
        },
        final(nic)@ == after_send(old(nic)@, packet@),
{
    if !nic.up {
        return Err("NIC not initialized");
    }
    if packet.len() == 0 || packet.len() > RX_BUF_SIZE {
        return Err("bad packet size");
    }
    if nic.tx_free == 0 {
        return Err("TX timeout");
    }
    let mut frame: Vec<u8> = Vec::new();
    frame.extend_from_slice(packet);
    assert(frame@ =~= packet@);
    nic.tx.push(frame);
    nic.tx_free = nic.tx_free - 1;
    nic.tx_count = nic.tx_count.wrapping_add(1);
    assert(frames(nic.tx@) =~= old(nic)@.tx.push(packet@));
    Ok(())
}

/// Returns the next received Ethernet frame, or `None` if there is none.
pub fn poll_rx(nic: &mut E1000) -> (r: Option<Vec<u8>>)
    ensures
        r is Some <==> old(nic)@.up && old(nic)@.rx.len() > 0,
        r matches Some(f) ==> f@ == old(nic)@.rx[0] && final(nic)@ == after_receive(old(nic)@),
        r is None ==> final(nic)@ == old(nic)@,
{
    if !nic.up {
        return None;
    }
    let ghost before = nic.rx@;
    match nic.rx.pop_front() {
        None => None,
        Some(frame) => {
            nic.rx_count = nic.rx_count.wrapping_add(1);
            assert(frames(nic.rx@) =~= frames(before).skip(1));
            Some(frame)
        },
    }
}

} // verus!
