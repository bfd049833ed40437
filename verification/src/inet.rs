//! `AF_INET` socket endpoints for the Linux ABI layer.
//!
//! This is the syscall-facing half of the network stack: `net` holds
//! the raw packet primitives, and this module holds the *stateful*
//! per-socket side: source-port assignment, the TCP state machine (SYN,
//! SYN-ACK, established, data, FIN), per-socket receive buffers, and a
//! `pump()` that drains the received frames and dispatches each to the
//! right endpoint.
//!
//! TCP receive assumes in-order segments (anything with a gap is dropped).
//! No retransmission, no windowing, no TIME_WAIT: `close` sends a FIN and
//! forgets. The accept queue holds at most 16 connections and a UDP socket
//! at most 64 datagrams.

use crate::bytes::{be16, copy_into, get_be16, splice};
use crate::e1000::{after_receive, poll_rx, Nic, E1000};
use crate::net::{
    after_arp_request, after_tcp, after_udp, arp_lookup, arp_reply_ip, arp_reply_mac,
    arp_request_error, build_tcp, cache_arp, cached, ipv4_error, ipv4_of, learned, lesser,
    parse_arp_reply, parse_ipv4, parse_tcp, same_ip, send_arp_request, send_tcp, send_udp_mac,
    seq_plus, tcp_of, tcp_segment, ArpCache, Datagram, Segment, TcpSegment, ETHERTYPE_ARP,
    ETHERTYPE_IPV4, IP_PROTO_TCP, IP_PROTO_UDP, TCP_ACK, TCP_FIN, TCP_RST, TCP_SYN,
};
use std::collections::VecDeque;
use vstd::prelude::*;
use vstd::slice::slice_subrange;

verus! {

pub const AF_INET: u64 = 2;

pub const SOCK_STREAM: u64 = 1;

pub const SOCK_DGRAM: u64 = 2;

/// Masked off `socket`'s type argument.
pub const SOCK_CLOEXEC: u64 = 0x80000;

pub const SOCK_NONBLOCK: u64 = 0x800;

pub const EBADF: i32 = 9;

pub const EAGAIN: i32 = 11;

pub const EINVAL: i32 = 22;

pub const EIO: i32 = 5;

pub const ENOTCONN: i32 = 107;

pub const ECONNREFUSED: i32 = 111;

pub const ECONNRESET: i32 = 104;

pub const EISCONN: i32 = 106;

pub const EADDRINUSE: i32 = 98;

pub const ETIMEDOUT: i32 = 110;

/// How long to wait for an ARP reply inside a system call.
pub const MAC_TIMEOUT_TICKS: u64 = 3000;

#[derive(Clone, Copy, Debug, PartialEq, Eq, Structural)]
pub enum Kind {
    Tcp,
    Udp,
}

#[derive(Clone, Copy, Debug, PartialEq, Eq, Structural)]
pub enum TcpState {
    /// Fresh socket, nothing sent yet.
    Idle,
    /// SYN sent, waiting for SYN-ACK (or RST).
    SynSent,
    /// We received a SYN on a listening socket and sent SYN-ACK;
    /// waiting for the final ACK to open the connection.
    SynReceived,
    /// Handshake done: data can flow both ways.
    Established,
    /// We sent FIN; still reading.
    FinSent,
}

#[derive(Clone, Copy)]
pub struct TcpCtl {
    pub state: TcpState,
    pub dst_ip: [u8; 4],
    pub dst_port: u16,
    pub dst_mac: [u8; 6],
    /// Our next outgoing sequence number.
    pub our_seq: u32,
    /// The peer's initial sequence number. The first data byte it sends
    /// has seq = their_initial_seq + 1.
    pub their_initial_seq: u32,
    /// The sequence number that the peer's next data byte has.
    pub their_next: u32,
    /// Whether the SYN needs no ARP reply any more.
    pub arp_sent: bool,
    /// For a server-side child connection: the endpoint id of the
    /// listener that spawned it. `None` for clients.
    pub listener: Option<usize>,
}

/// A received UDP datagram (boundaries preserved).
pub struct UdpPacket {
    pub src_ip: [u8; 4],
    pub src_port: u16,
    pub payload: Vec<u8>,
}

pub struct Endpoint {
    pub kind: Kind,
    /// Our source port; 0 until assigned (bind, or first connect/sendto).
    pub local_port: u16,
    /// Peer recorded by `connect` on a UDP socket.
    pub udp_peer: Option<([u8; 4], u16)>,
    pub tcp: Option<TcpCtl>,
    /// True after `listen()`.
    pub listening: bool,
    /// Connections whose handshake completed, until `accept` pops them.
    pub accept_queue: VecDeque<usize>,
    /// Received, in-order TCP bytes waiting for read/recv.
    pub inbox: VecDeque<u8>,
    /// Received UDP datagrams.
    pub udp_inbox: VecDeque<UdpPacket>,
    /// FIN received (the peer closed its write side).
    pub eof: bool,
    /// RST received.
    pub rst: bool,
    pub nonblock: bool,
}

/// A TCP connection.
pub struct Conn {
    pub state: TcpState,
    pub dst_ip: Seq<u8>,
    pub dst_port: u16,
    pub dst_mac: Seq<u8>,
    pub our_seq: u32,
    pub their_isn: u32,
    pub their_next: u32,
    pub arp_sent: bool,
    pub listener: Option<usize>,
}

/// A socket.
pub struct Sock {
    pub kind: Kind,
    pub local_port: u16,
    pub udp_peer: Option<(Seq<u8>, u16)>,
    pub tcp: Option<Conn>,
    pub listening: bool,
    pub accept_queue: Seq<usize>,
    pub inbox: Seq<u8>,
    pub udp_inbox: Seq<Datagram>,
    pub eof: bool,
    pub rst: bool,
    pub nonblock: bool,
}

impl View for TcpCtl {
    type V = Conn;

    open spec fn view(&self) -> Conn {
        Conn {
            state: self.state,
            dst_ip: self.dst_ip@,
            dst_port: self.dst_port,
            dst_mac: self.dst_mac@,
            our_seq: self.our_seq,
            their_isn: self.their_initial_seq,
            their_next: self.their_next,
            arp_sent: self.arp_sent,
            listener: self.listener,
        }
    }
}

impl View for UdpPacket {
    type V = Datagram;

    open spec fn view(&self) -> Datagram {
        Datagram { src_ip: self.src_ip@, src_port: self.src_port, payload: self.payload@ }
    }
}

/// The datagrams as plain values.
pub open spec fn datagrams(q: Seq<UdpPacket>) -> Seq<Datagram> {
    Seq::new(q.len(), |i: int| q[i]@)
}

impl View for Endpoint {
    type V = Sock;

    open spec fn view(&self) -> Sock {
        Sock {
            kind: self.kind,
            local_port: self.local_port,
            udp_peer: match self.udp_peer {
                Some((ip, port)) => Some((ip@, port)),
                None => None,
            },
            tcp: match self.tcp {
                Some(t) => Some(t@),
                None => None,
            },
            listening: self.listening,
            accept_queue: self.accept_queue@,
            inbox: self.inbox@,
            udp_inbox: datagrams(self.udp_inbox@),
            eof: self.eof,
            rst: self.rst,
            nonblock: self.nonblock,
        }
    }
}

/// All endpoints, indexed by id, and the counter for ephemeral ports.
pub struct Sockets {
    slots: Vec<Option<Endpoint>>,
    next_ephemeral: u16,
}

/// The socket table.
pub struct Table {
    pub socks: Seq<Option<Sock>>,
    pub next: u16,
}

/// What a slot holds.
pub open spec fn slot_view(e: Option<Endpoint>) -> Option<Sock> {
    match e {
        Some(e) => Some(e@),
        None => None,
    }
}

impl View for Sockets {
    type V = Table;

    closed spec fn view(&self) -> Table {
        Table {
            socks: Seq::new(self.slots@.len(), |i: int| slot_view(self.slots@[i])),
            next: self.next_ephemeral,
        }
    }
}

/// The live socket with this id.
pub open spec fn sock(t: Table, id: usize) -> Option<Sock> {
    if id < t.socks.len() {
        t.socks[id as int]
    } else {
        None
    }
}

/// The table with one slot replaced.
pub open spec fn with_slot(t: Table, id: int, s: Option<Sock>) -> Table {
    Table { socks: t.socks.update(id, s), ..t }
}

/// A socket that nothing was done with yet.
pub open spec fn fresh(kind: Kind) -> Sock {
    Sock {
        kind,
        local_port: 0,
        udp_peer: None,
        tcp: None,
        listening: false,
        accept_queue: Seq::empty(),
        inbox: Seq::empty(),
        udp_inbox: Seq::empty(),
        eof: false,
        rst: false,
        nonblock: false,
    }
}

/// The lowest vacant slot from `i` on, or the length of the table.
pub open spec fn vacant(socks: Seq<Option<Sock>>, i: int) -> int
    decreases socks.len() - i,
{
    if i >= socks.len() {
        socks.len() as int
    } else if socks[i] is None {
        i
    } else {
        vacant(socks, i + 1)
    }
}

/// The table with a socket put into its lowest vacant slot.
pub open spec fn placed(t: Table, s: Sock) -> Table {
    let i = vacant(t.socks, 0);
    Table {
        socks: if i < t.socks.len() {
            t.socks.update(i, Some(s))
        } else {
            t.socks.push(Some(s))
        },
        ..t
    }
}

/// Whether a socket holds the local port.
pub open spec fn port_taken(t: Table, port: u16) -> bool {
    exists|i: int|
        0 <= i < t.socks.len() && #[trigger] t.socks[i] is Some && t.socks[i]->0.local_port == port
}

/// The ephemeral port `i` places after the one numbered `base`.
pub open spec fn ephemeral_port(base: int, i: int) -> u16 {
    ((base + i) % 0x4000 + 0xC000) as u16
}

/// The first ephemeral port that no socket holds, trying from place `i`
/// after `base` on; 0xC000 if all are held.
pub open spec fn free_port(t: Table, base: int, i: int) -> u16
    decreases 0x4000 - i,
{
    if i >= 0x4000 {
        0xC000
    } else if !port_taken(t, ephemeral_port(base, i)) {
        ephemeral_port(base, i)
    } else {
        free_port(t, base, i + 1)
    }
}

/// The port that is handed out next.
pub open spec fn next_port(t: Table) -> u16 {
    free_port(t, t.next as int % 0x4000, 0)
}

/// The table after a port was handed out.
pub open spec fn port_drawn(t: Table) -> Table {
    Table {
        next: if t.next == u16::MAX {
            0
        } else {
            (t.next + 1) as u16
        },
        ..t
    }
}

fn advanced(seq: u32, len: usize) -> (r: u32)
    ensures
        r == seq_plus(seq, len as int),
{
    let more = (len as u64 % 0x1_0000_0000) as u32;
    assert((seq + len) % 0x1_0000_0000 == (seq + more) % 0x1_0000_0000);
    seq.wrapping_add(more)
}

/// The segment that closes our side of an established connection.
pub open spec fn fin_segment(s: Sock, t: Conn) -> Seq<u8> {
    tcp_segment(
        s.local_port,
        t.dst_port,
        t.our_seq,
        t.their_next,
        0x11,
        Seq::empty(),
        t.dst_ip,
    )
}

/// Whether the socket has an established connection.
pub open spec fn established(s: Sock) -> bool {
    s.tcp matches Some(t) && t.state == TcpState::Established
}

/// A segment without data.
fn bare_segment(src_port: u16, dst_port: u16, seq: u32, ack: u32, flags: u8, dst_ip: [u8; 4]) -> (r:
    Vec<u8>)
    ensures
        r@ == tcp_segment(src_port, dst_port, seq, ack, flags, Seq::empty(), dst_ip@),
        r@.len() == 20,
{
    let none: Vec<u8> = Vec::new();
    assert(none@ =~= Seq::<u8>::empty());
    build_tcp(src_port, dst_port, seq, ack, flags, none.as_slice(), dst_ip)
}

impl Sockets {
    /// A table without sockets.
    pub fn new() -> (r: Self)
        ensures
            r@ == (Table { socks: Seq::empty(), next: 0 }),
    {
        let r = Sockets { slots: Vec::new(), next_ephemeral: 0 };
        assert(r@.socks =~= Seq::<Option<Sock>>::empty());
        r
    }

    fn get(&self, id: usize) -> (r: Option<&Endpoint>)
        ensures
            match sock(self@, id) {
                Some(s) => r is Some && r->0@ == s,
                None => r is None,
            },
    {
        if id < self.slots.len() {
            self.slots[id].as_ref()
        } else {
            None
        }
    }

    fn alloc_endpoint(&mut self, ep: Endpoint) -> (r: usize)
        ensures
            final(self)@ == placed(old(self)@, ep@),
            r == vacant(old(self)@.socks, 0),
    {
        let mut i: usize = 0;
        while i < self.slots.len()
            invariant
                *self == *old(self),
                i <= self.slots@.len(),
                vacant(self@.socks, 0) == vacant(self@.socks, i as int),
            decreases self.slots@.len() - i,
        {
            if self.slots[i].is_none() {
                let ghost s = ep@;
                self.slots.set(i, Some(ep));
                assert(self@.socks =~= old(self)@.socks.update(i as int, Some(s)));
                return i;
            }
            i += 1;
        }
        let ghost s = ep@;
        self.slots.push(Some(ep));
        assert(self@.socks =~= old(self)@.socks.push(Some(s)));
        self.slots.len() - 1
    }

    fn holds_port(&self, port: u16) -> (r: bool)
        ensures
            r == port_taken(self@, port),
    {
        let mut i: usize = 0;
        while i < self.slots.len()
            invariant
                i <= self.slots@.len(),
                forall|k: int|
                    0 <= k < i ==> !(#[trigger] self@.socks[k] is Some && self@.socks[k]->0.local_port
                        == port),
            decreases self.slots@.len() - i,
        {
            if let Some(ep) = &self.slots[i] {
                assert(self@.socks[i as int] == Some(ep@));
                if ep.local_port == port {
                    return true;
                }
            }
            i += 1;
        }
        false
    }

    /// Finds a free source port in the ephemeral range (49152..65535),
    /// skipping any port another endpoint already holds.
    fn alloc_ephemeral(&mut self) -> (r: u16)
        ensures
            r == next_port(old(self)@),
            final(self)@ == port_drawn(old(self)@),
            r >= 0xC000,
    {
        let base = self.next_ephemeral % 0x4000;
        let ghost t = self@;
        self.next_ephemeral = self.next_ephemeral.wrapping_add(1);
        assert(self@.socks =~= t.socks);
        let mut i: u16 = 0;
        while i < 0x4000
            invariant
                i <= 0x4000,
                t == old(self)@,
                base == t.next as int % 0x4000,
                self@ == port_drawn(t),
                free_port(t, base as int, 0) == free_port(t, base as int, i as int),
            decreases 0x4000 - i,
        {
            let port = (base + i) % 0x4000 + 0xC000;
            assert(port_taken(self@, port) == port_taken(t, port)) by {
                assert(self@.socks == t.socks);
            }
            if !self.holds_port(port) {
                return port;
            }
            i += 1;
        }
        0xC000
    }
}

/// Creates a fresh AF_INET endpoint and returns its id: the lowest vacant
/// slot.
pub fn create(net: &mut Sockets, kind: Kind) -> (id: usize)
    ensures
        final(net)@ == placed(old(net)@, fresh(kind)),
        id == vacant(old(net)@.socks, 0),
{
    let ep = Endpoint {
        kind,
        local_port: 0,
        udp_peer: None,
        tcp: None,
        listening: false,
        accept_queue: VecDeque::new(),
        inbox: VecDeque::new(),
        udp_inbox: VecDeque::new(),
        eof: false,
        rst: false,
        nonblock: false,
    };
    assert(ep@.udp_inbox =~= fresh(kind).udp_inbox);
    assert(ep@ == fresh(kind));
    net.alloc_endpoint(ep)
}

/// Frees the endpoint. A TCP endpoint in the established state sends its
/// FIN first (the peer sees EOF), then forgets the connection.
pub fn close(net: &mut Sockets, nic: &mut E1000, id: usize)
    ensures
        match sock(old(net)@, id) {
            None => final(net)@ == old(net)@ && final(nic)@ == old(nic)@,
            Some(s) => {
                &&& final(net)@ == with_slot(old(net)@, id as int, None)
                &&& final(nic)@ == if established(s) {
                    after_tcp(
                        old(nic)@,
                        s.tcp->0.dst_mac,
                        s.tcp->0.dst_ip,
                        fin_segment(s, s.tcp->0),
                    )
                } else {
                    old(nic)@
                }
            },
        },
{
    match net.get(id) {
        None => {
            return;
        },
        Some(ep) => {
            if let Some(t) = ep.tcp {
                if t.state == TcpState::Established {
                    let seg = bare_segment(
                        ep.local_port,
                        t.dst_port,
                        t.our_seq,
                        t.their_next,
                        0x11,
                        t.dst_ip,
                    );
                    let _ = send_tcp(nic, t.dst_mac, t.dst_ip, seg.as_slice());
                }
            }
        },
    }
    net.slots.set(id, None);
    assert(net@.socks =~= old(net)@.socks.update(id as int, None));
}

/// What binding a socket comes to.
pub open spec fn bound(t: Table, id: usize, port: u16) -> (Result<(), i32>, Table) {
    match sock(t, id) {
        None => (Err(EBADF), t),
        Some(s) => if s.local_port != 0 {
            (Err(EINVAL), t)
        } else {
            let drawn = if port == 0 { port_drawn(t) } else { t };
            let p = if port == 0 { next_port(t) } else { port };
            if port_taken(t, p) {
                (Err(EADDRINUSE), drawn)
            } else {
                (Ok(()), with_slot(drawn, id as int, Some(Sock { local_port: p, ..s })))
            }
        },
    }
}

/// Binds `port` (0 = pick an ephemeral one) as the local source port.
pub fn bind(net: &mut Sockets, id: usize, port: u16) -> (r: Result<(), i32>)
    ensures
        r == bound(old(net)@, id, port).0,
        final(net)@ == bound(old(net)@, id, port).1,
{
    match net.get(id) {
        None => {
            return Err(EBADF);
        },
        Some(ep) => {
            if ep.local_port != 0 {
                return Err(EINVAL);
            }
        },
    }
    let port = if port == 0 { net.alloc_ephemeral() } else { port };
    assert(port_taken(net@, port) == port_taken(old(net)@, port)) by {
        assert(net@.socks == old(net)@.socks);
    }
    if net.holds_port(port) {
        return Err(EADDRINUSE);
    }
    let ghost drawn = net@;
    if let Some(ep) = &mut net.slots[id] {
        ep.local_port = port;
    }
    assert(net@.socks =~= bound(old(net)@, id, port).1.socks || net@.socks =~= drawn.socks.update(
        id as int,
        Some(Sock { local_port: port, ..sock(old(net)@, id)->0 }),
    ));
    Ok(())
}

/// Marks a bound TCP socket as a listener (`listen(2)`). The endpoint
/// must be a TCP socket with a bound local port and no connection in
/// progress.
pub fn listen(net: &mut Sockets, id: usize) -> (r: Result<(), i32>)
    ensures
        match sock(old(net)@, id) {
            None => r == Err::<(), i32>(EBADF) && final(net)@ == old(net)@,
            Some(s) => if s.kind != Kind::Tcp || s.local_port == 0 || s.tcp is Some {
                r == Err::<(), i32>(EINVAL) && final(net)@ == old(net)@
            } else {
                r == Ok::<(), i32>(()) && final(net)@ == with_slot(
                    old(net)@,
                    id as int,
                    Some(Sock { listening: true, ..s }),
                )
            },
        },
{
    match net.get(id) {
        None => {
            return Err(EBADF);
        },
        Some(ep) => {
            if ep.kind != Kind::Tcp || ep.local_port == 0 || ep.tcp.is_some() {
                return Err(EINVAL);
            }
        },
    }
    if let Some(ep) = &mut net.slots[id] {
        ep.listening = true;
    }
    assert(net@.socks =~= old(net)@.socks.update(
        id as int,
        Some(Sock { listening: true, ..sock(old(net)@, id)->0 }),
    ));
    Ok(())
}

/// Pops one handshake-completed incoming connection off a listener's
/// accept queue, if any (`accept(2)` without blocking).
pub fn accept_pending(net: &mut Sockets, id: usize) -> (r: Option<usize>)
    ensures
        match sock(old(net)@, id) {
            Some(s) if s.accept_queue.len() > 0 => r == Some(s.accept_queue[0]) && final(net)@
                == with_slot(
                old(net)@,
                id as int,
                Some(Sock { accept_queue: s.accept_queue.skip(1), ..s }),
            ),
            _ => r is None && final(net)@ == old(net)@,
        },
{
    if id >= net.slots.len() {
        return None;
    }
    let ghost before = net.slots@[id as int];
    let mut r: Option<usize> = None;
    if let Some(ep) = &mut net.slots[id] {
        r = ep.accept_queue.pop_front();
    }
    proof {
        if r is Some {
            let s = before->0@;
            assert(net.slots@[id as int]->0@.accept_queue =~= s.accept_queue.skip(1));
            assert(net@.socks =~= old(net)@.socks.update(
                id as int,
                Some(Sock { accept_queue: s.accept_queue.skip(1), ..s }),
            ));
        } else {
            assert(net@.socks =~= old(net)@.socks);
        }
    }
    r
}

/// Whether the endpoint is a listening TCP socket.
pub fn is_listening(net: &Sockets, id: usize) -> (r: bool)
    ensures
        r == (sock(net@, id) matches Some(s) && s.listening),
{
    match net.get(id) {
        Some(ep) => ep.listening,
        None => false,
    }
}

/// Sets/clears O_NONBLOCK (`fcntl(F_SETFL)`).
pub fn set_nonblock(net: &mut Sockets, id: usize, nb: bool) -> (r: Result<(), i32>)
    ensures
        match sock(old(net)@, id) {
            None => r == Err::<(), i32>(EBADF) && final(net)@ == old(net)@,
            Some(s) => r == Ok::<(), i32>(()) && final(net)@ == with_slot(
                old(net)@,
                id as int,
                Some(Sock { nonblock: nb, ..s }),
            ),
        },
{
    if net.get(id).is_none() {
        return Err(EBADF);
    }
    if let Some(ep) = &mut net.slots[id] {
        ep.nonblock = nb;
    }
    assert(net@.socks =~= old(net)@.socks.update(
        id as int,
        Some(Sock { nonblock: nb, ..sock(old(net)@, id)->0 }),
    ));
    Ok(())
}

pub fn is_nonblock(net: &Sockets, id: usize) -> (r: bool)
    ensures
        r == (sock(net@, id) matches Some(s) && s.nonblock),
{
    match net.get(id) {
        Some(ep) => ep.nonblock,
        None => false,
    }
}

/// Polls the endpoint's connect progress: `Ok(true)` established,
/// `Ok(false)` still in flight, `Err` failed (ECONNREFUSED on RST).
pub fn connect_done(net: &Sockets, id: usize) -> (r: Result<bool, i32>)
    ensures
        r == match sock(net@, id) {
            None => Err::<bool, i32>(EBADF),
            Some(s) => match s.tcp {
                None => Ok(false),
                Some(t) => match t.state {
                    TcpState::Established => Ok(true),
                    TcpState::Idle => Err(EINVAL),
                    _ => if s.rst {
                        Err(ECONNREFUSED)
                    } else {
                        Ok(false)
                    },
                },
            },
        },
{
    let ep = match net.get(id) {
        None => {
            return Err(EBADF);
        },
        Some(ep) => ep,
    };
    match ep.tcp {
        None => Ok(false),
        Some(t) => match t.state {
            TcpState::Established => Ok(true),
            TcpState::SynSent | TcpState::FinSent | TcpState::SynReceived => {
                if ep.rst {
                    Err(ECONNREFUSED)
                } else {
                    Ok(false)
                }
            },
            TcpState::Idle => Err(EINVAL),
        },
    }
}

/// The connected peer of a socket.
pub open spec fn peer(s: Sock) -> Option<(Seq<u8>, u16)> {
    match s.kind {
        Kind::Udp => s.udp_peer,
        Kind::Tcp => if established(s) {
            Some((s.tcp->0.dst_ip, s.tcp->0.dst_port))
        } else {
            None
        },
    }
}

/// The connected peer (both kinds), if any.
pub fn peer_of(net: &Sockets, id: usize) -> (r: Option<([u8; 4], u16)>)
    ensures
        match sock(net@, id) {
            Some(s) => match peer(s) {
                Some((ip, port)) => r matches Some((i, p)) && i@ == ip && p == port,
                None => r is None,
            },
            None => r is None,
        },
{
    let ep = match net.get(id) {
        None => {
            return None;
        },
        Some(ep) => ep,
    };
    match ep.kind {
        Kind::Udp => ep.udp_peer,
        Kind::Tcp => match ep.tcp {
            Some(t) => {
                if t.state == TcpState::Established {
                    Some((t.dst_ip, t.dst_port))
                } else {
                    None
                }
            },
            None => None,
        },
    }
}

pub fn local_port_of(net: &Sockets, id: usize) -> (r: u16)
    ensures
        r == match sock(net@, id) {
            Some(s) => s.local_port,
            None => 0,
        },
{
    match net.get(id) {
        Some(ep) => ep.local_port,
        None => 0,
    }
}

pub fn kind_of(net: &Sockets, id: usize) -> (r: Kind)
    ensures
        r == match sock(net@, id) {
            Some(s) => s.kind,
            None => Kind::Tcp,
        },
{
    match net.get(id) {
        Some(ep) => ep.kind,
        None => Kind::Tcp,
    }
}

/// poll/epoll readiness: (readable, writable).
pub fn readiness(net: &Sockets, id: usize) -> (r: (bool, bool))
    ensures
        r == match sock(net@, id) {
            None => (false, false),
            Some(s) => (
                s.inbox.len() > 0 || s.eof || s.rst || s.udp_inbox.len() > 0 || (
                s.accept_queue.len() > 0 && s.listening),
                s.kind == Kind::Udp || established(s),
            ),
        },
{
    let ep = match net.get(id) {
        None => {
            return (false, false);
        },
        Some(ep) => ep,
    };
    let read = ep.inbox.len() > 0 || ep.eof || ep.rst || ep.udp_inbox.len() > 0 || (
    ep.accept_queue.len() > 0 && ep.listening);
    let write = match ep.kind {
        Kind::Udp => true,
        Kind::Tcp => match ep.tcp {
            Some(t) => t.state == TcpState::Established,
            None => false,
        },
    };
    (read, write)
}

/// Table and card after the SYN of a socket was due, and what is reported.
pub open spec fn syn_sent(t: Table, n: Nic, id: usize) -> (Result<(), i32>, Table, Nic) {
    match sock(t, id) {
        None => (Err(EBADF), t, n),
        Some(s) => match s.tcp {
            None => (Ok(()), t, n),
            Some(c) => {
                let seg = tcp_segment(
                    s.local_port,
                    c.dst_port,
                    c.our_seq,
                    0,
                    0x02,
                    Seq::empty(),
                    c.dst_ip,
                );
                let m = after_tcp(n, c.dst_mac, c.dst_ip, seg);
                if ipv4_error(n, 20) is Some {
                    (Err(EIO), t, m)
                } else {
                    let d = Conn { our_seq: seq_plus(c.our_seq, 1), arp_sent: true, ..c };
                    (Ok(()), with_slot(t, id as int, Some(Sock { tcp: Some(d), ..s })), m)
                }
            },
        },
    }
}

/// Sends the SYN for a SynSent endpoint. Returns EIO if the NIC is down.
fn send_syn(net: &mut Sockets, nic: &mut E1000, id: usize) -> (r: Result<(), i32>)
    ensures
        (r, final(net)@, final(nic)@) == syn_sent(old(net)@, old(nic)@, id),
{
    let (src_port, mut t) = match net.get(id) {
        None => {
            return Err(EBADF);
        },
        Some(ep) => match ep.tcp {
            None => {
                return Ok(());
            },
            Some(t) => (ep.local_port, t),
        },
    };
    let seg = bare_segment(src_port, t.dst_port, t.our_seq, 0, TCP_SYN, t.dst_ip);
    if send_tcp(nic, t.dst_mac, t.dst_ip, seg.as_slice()).is_err() {
        return Err(EIO);
    }
    let ghost s = sock(net@, id)->0;
    t.our_seq = t.our_seq.wrapping_add(1);
    t.arp_sent = true;
    if let Some(ep) = &mut net.slots[id] {
        ep.tcp = Some(t);
    }
    assert(net@.socks =~= old(net)@.socks.update(id as int, Some(Sock { tcp: Some(t@), ..s })));
    Ok(())
}

/// The first outgoing sequence number of a client connection.
pub open spec fn initial_seq(id: usize) -> u32 {
    seq_plus(0x1234_5678, (id as int % 0x1_0000_0000) * 0x10_0003)
}

/// The socket as a client that is about to send its SYN.
pub open spec fn connecting(
    s: Sock,
    id: usize,
    port_here: u16,
    ip: Seq<u8>,
    port: u16,
    mac: Option<Seq<u8>>,
) -> Sock {
    Sock {
        local_port: port_here,
        tcp: Some(
            Conn {
                state: TcpState::SynSent,
                dst_ip: ip,
                dst_port: port,
                dst_mac: match mac {
                    Some(m) => m,
                    None => seq![0u8, 0u8, 0u8, 0u8, 0u8, 0u8],
                },
                our_seq: initial_seq(id),
                their_isn: 0,
                their_next: 1,
                arp_sent: mac is Some,
                listener: None,
            },
        ),
        ..s
    }
}

/// What starting a connection comes to.
pub open spec fn connect_started(
    t: Table,
    cache: Seq<(Seq<u8>, Seq<u8>)>,
    n: Nic,
    id: usize,
    ip: Seq<u8>,
    port: u16,
) -> (Result<(), i32>, Table, Nic) {
    match sock(t, id) {
        None => (Err(EBADF), t, n),
        Some(s) => if s.kind == Kind::Tcp && s.tcp is Some {
            (Err(EISCONN), t, n)
        } else {
            let drawn = if s.local_port == 0 { port_drawn(t) } else { t };
            let here = if s.local_port == 0 { next_port(t) } else { s.local_port };
            if s.kind == Kind::Udp {
                (
                    Ok(()),
                    with_slot(
                        drawn,
                        id as int,
                        Some(Sock { local_port: here, udp_peer: Some((ip, port)), ..s }),
                    ),
                    n,
                )
            } else {
                let mac = cached(cache, ip);
                let u = with_slot(drawn, id as int, Some(connecting(s, id, here, ip, port, mac)));
                if mac is Some {
                    syn_sent(u, n, id)
                } else {
                    (Ok(()), u, after_arp_request(n, ip))
                }
            }
        },
    }
}

/// Starts a connect. For UDP this just records the peer. For TCP it
/// assigns a source port and sends the SYN (if the MAC is cached;
/// otherwise the ARP request goes out now and `pump` sends the SYN when
/// the reply lands). The caller then loops on `pump()` + `connect_done()`.
pub fn start_connect(
    net: &mut Sockets,
    cache: &ArpCache,
    nic: &mut E1000,
    id: usize,
    ip: [u8; 4],
    port: u16,
) -> (r: Result<(), i32>)
    ensures
        (r, final(net)@, final(nic)@) == connect_started(
            old(net)@,
            cache@,
            old(nic)@,
            id,
            ip@,
            port,
        ),
{
    let mac = arp_lookup(cache, ip);
    let (kind, had_local) = match net.get(id) {
        None => {
            return Err(EBADF);
        },
        Some(ep) => {
            if ep.kind == Kind::Tcp && ep.tcp.is_some() {
                return Err(EISCONN);
            }
            (ep.kind, ep.local_port)
        },
    };
    let here = if had_local == 0 { net.alloc_ephemeral() } else { had_local };
    match kind {
        Kind::Udp => {
            net.set_peer(id, here, ip, port);
            Ok(())
        },
        Kind::Tcp => {
            net.set_connecting(id, here, ip, port, mac);
            if mac.is_some() {
                send_syn(net, nic, id)
            } else {
                let _ = send_arp_request(nic, ip);
                Ok(())
            }
        },
    }
}

impl Sockets {
    /// Files the peer's MAC address for a connection.
    fn set_mac(&mut self, id: usize, mac: [u8; 6])
        requires
            sock(old(self)@, id) is Some,
            sock(old(self)@, id)->0.tcp is Some,
        ensures
            final(self)@ == resolved(old(self)@, id as int, mac@),
    {
        let ghost s = sock(self@, id)->0;
        if let Some(ep) = &mut self.slots[id] {
            if let Some(t0) = ep.tcp {
                let mut t = t0;
                t.dst_mac = mac;
                ep.tcp = Some(t);
            }
        }
        assert(self@.socks =~= old(self)@.socks.update(
            id as int,
            Some(Sock { tcp: Some(Conn { dst_mac: mac@, ..s.tcp->0 }), ..s }),
        ));
    }
}

fn first_seq(id: usize) -> (r: u32)
    ensures
        r == initial_seq(id),
{
    let total: u64 = 0x1234_5678 + (id as u64 % 0x1_0000_0000) * 0x10_0003;
    (total % 0x1_0000_0000) as u32
}

impl Sockets {
    fn set_peer(&mut self, id: usize, here: u16, ip: [u8; 4], port: u16)
        requires
            sock(old(self)@, id) is Some,
        ensures
            final(self)@ == with_slot(
                old(self)@,
                id as int,
                Some(
                    Sock {
                        local_port: here,
                        udp_peer: Some((ip@, port)),
                        ..sock(old(self)@, id)->0
                    },
                ),
            ),
    {
        let ghost s = sock(self@, id)->0;
        if let Some(ep) = &mut self.slots[id] {
            ep.local_port = here;
            ep.udp_peer = Some((ip, port));
        }
        assert(self@.socks =~= old(self)@.socks.update(
            id as int,
            Some(Sock { local_port: here, udp_peer: Some((ip@, port)), ..s }),
        ));
    }

    fn set_connecting(
        &mut self,
        id: usize,
        here: u16,
        ip: [u8; 4],
        port: u16,
        mac: Option<[u8; 6]>,
    )
        requires
            sock(old(self)@, id) is Some,
        ensures
            final(self)@ == with_slot(
                old(self)@,
                id as int,
                Some(
                    connecting(
                        sock(old(self)@, id)->0,
                        id,
                        here,
                        ip@,
                        port,
                        match mac {
                            Some(m) => Some(m@),
                            None => None,
                        },
                    ),
                ),
            ),
    {
        let ghost s = sock(self@, id)->0;
        let zero = [0u8, 0, 0, 0, 0, 0];
        assert(zero@ =~= seq![0u8, 0u8, 0u8, 0u8, 0u8, 0u8]);
        let ctl = TcpCtl {
            state: TcpState::SynSent,
            dst_ip: ip,
            dst_port: port,
            dst_mac: match mac {
                Some(m) => m,
                None => zero,
            },
            our_seq: first_seq(id),
            their_initial_seq: 0,
            their_next: 1,
            arp_sent: mac.is_some(),
            listener: None,
        };
        if let Some(ep) = &mut self.slots[id] {
            ep.local_port = here;
            ep.tcp = Some(ctl);
        }
        assert(self@.socks =~= old(self)@.socks.update(
            id as int,
            Some(Sock { local_port: here, tcp: Some(ctl@), ..s }),
        ));
    }
}

/// How far sending a datagram has come.
pub enum SendStep {
    Done(usize),
    Failed(i32),
    /// The destination's MAC address was asked for: pump until it is known
    /// or the deadline is over, then send the datagram.
    Resolve { ip: [u8; 4], port: u16, src_port: u16, deadline: u64 },
}

/// Whether a datagram to `ip:port` was sent or waits for the MAC address.
pub open spec fn datagram_step(
    cache: Seq<(Seq<u8>, Seq<u8>)>,
    n: Nic,
    ip: Seq<u8>,
    port: u16,
    src_port: u16,
    data: Seq<u8>,
    now: u64,
    step: SendStep,
    after: Nic,
) -> bool {
    match cached(cache, ip) {
        Some(mac) => {
            &&& after == after_udp(n, mac, ip, port, src_port, data)
            &&& step == if ipv4_error(n, 8 + data.len()) is Some {
                SendStep::Failed(EIO)
            } else {
                SendStep::Done(data.len() as usize)
            }
        },
        None => {
            &&& after == after_arp_request(n, ip)
            &&& if arp_request_error(n) is Some {
                step == SendStep::Failed(EIO)
            } else {
                &&& step matches SendStep::Resolve { ip: i, port: p, src_port: sp, deadline }
                &&& i@ == ip && p == port && sp == src_port && deadline == now + 3000
            }
        },
    }
}

/// Sends a datagram whose destination's MAC address is known.
pub fn send_datagram(
    nic: &mut E1000,
    mac: [u8; 6],
    ip: [u8; 4],
    port: u16,
    src_port: u16,
    data: &[u8],
) -> (r: Result<usize, i32>)
    requires
        data.len() + 42 <= u32::MAX,
    ensures
        final(nic)@ == after_udp(old(nic)@, mac@, ip@, port, src_port, data@),
        r == if ipv4_error(old(nic)@, 8 + data@.len()) is Some {
            Err::<usize, i32>(EIO)
        } else {
            Ok(data@.len() as usize)
        },
{
    if send_udp_mac(nic, mac, ip, port, src_port, data).is_err() {
        return Err(EIO);
    }
    Ok(data.len())
}

fn start_datagram(
    cache: &ArpCache,
    nic: &mut E1000,
    ip: [u8; 4],
    port: u16,
    src_port: u16,
    data: &[u8],
    now: u64,
) -> (r: SendStep)
    requires
        data.len() + 42 <= u32::MAX,
        now + 3000 <= u64::MAX,
    ensures
        datagram_step(cache@, old(nic)@, ip@, port, src_port, data@, now, r, final(nic)@),
{
    if let Some(mac) = arp_lookup(cache, ip) {
        return match send_datagram(nic, mac, ip, port, src_port, data) {
            Ok(n) => SendStep::Done(n),
            Err(e) => SendStep::Failed(e),
        };
    }
    if send_arp_request(nic, ip).is_err() {
        return SendStep::Failed(EIO);
    }
    SendStep::Resolve { ip, port, src_port, deadline: now + MAC_TIMEOUT_TICKS }
}

/// Sends bytes on a connected socket (TCP: one segment with proper
/// seq/ack; UDP: one datagram to the peer from `connect`).
pub fn send(
    net: &mut Sockets,
    cache: &ArpCache,
    nic: &mut E1000,
    id: usize,
    data: &[u8],
    now: u64,
) -> (r: SendStep)
    requires
        data.len() + 54 <= u32::MAX,
        now + 3000 <= u64::MAX,
    ensures
        match sock(old(net)@, id) {
            None => r == SendStep::Failed(EBADF) && final(net)@ == old(net)@ && final(nic)@ == old(
                nic)@,
            Some(s) => if s.kind == Kind::Udp {
                &&& final(net)@ == old(net)@
                &&& match s.udp_peer {
                    None => r == SendStep::Failed(ENOTCONN) && final(nic)@ == old(nic)@,
                    Some((ip, port)) => datagram_step(
                        cache@,
                        old(nic)@,
                        ip,
                        port,
                        s.local_port,
                        data@,
                        now,
                        r,
                        final(nic)@,
                    ),
                }
            } else if !established(s) {
                r == SendStep::Failed(ENOTCONN) && final(net)@ == old(net)@ && final(nic)@ == old(
                    nic)@
            } else {
                let t = s.tcp->0;
                let seg = tcp_segment(
                    s.local_port,
                    t.dst_port,
                    t.our_seq,
                    t.their_next,
                    0x18,
                    data@,
                    t.dst_ip,
                );
                &&& final(nic)@ == after_tcp(old(nic)@, t.dst_mac, t.dst_ip, seg)
                &&& if ipv4_error(old(nic)@, 20 + data@.len()) is Some {
                    r == SendStep::Failed(EIO) && final(net)@ == old(net)@
                } else {
                    let u = Conn { our_seq: seq_plus(t.our_seq, data@.len() as int), ..t };
                    &&& r == SendStep::Done(data@.len() as usize)
                    &&& final(net)@ == with_slot(
                        old(net)@,
                        id as int,
                        Some(Sock { tcp: Some(u), ..s }),
                    )
                }
            },
        },
{
    let ghost s = sock(net@, id)->0;
    let (src_port, mut t) = match net.get(id) {
        None => {
            return SendStep::Failed(EBADF);
        },
        Some(ep) => match ep.kind {
            Kind::Udp => {
                return match ep.udp_peer {
                    None => SendStep::Failed(ENOTCONN),
                    Some((ip, port)) => start_datagram(
                        cache,
                        nic,
                        ip,
                        port,
                        ep.local_port,
                        data,
                        now,
                    ),
                };
            },
            Kind::Tcp => match ep.tcp {
                None => {
                    return SendStep::Failed(ENOTCONN);
                },
                Some(t) => {
                    if t.state != TcpState::Established {
                        return SendStep::Failed(ENOTCONN);
                    }
                    (ep.local_port, t)
                },
            },
        },
    };
    let seg = build_tcp(src_port, t.dst_port, t.our_seq, t.their_next, 0x18, data, t.dst_ip);
    if send_tcp(nic, t.dst_mac, t.dst_ip, seg.as_slice()).is_err() {
        return SendStep::Failed(EIO);
    }
    t.our_seq = advanced(t.our_seq, data.len());
    if let Some(ep) = &mut net.slots[id] {
        ep.tcp = Some(t);
    }
    assert(net@.socks =~= old(net)@.socks.update(id as int, Some(Sock { tcp: Some(t@), ..s })));
    SendStep::Done(data.len())
}

/// Sends a UDP datagram to an explicit destination (`sendto` with an
/// address). Assigns a source port on first use.
pub fn sendto(
    net: &mut Sockets,
    cache: &ArpCache,
    nic: &mut E1000,
    id: usize,
    ip: [u8; 4],
    port: u16,
    data: &[u8],
    now: u64,
) -> (r: SendStep)
    requires
        data.len() + 54 <= u32::MAX,
        now + 3000 <= u64::MAX,
    ensures
        match sock(old(net)@, id) {
            None => r == SendStep::Failed(EBADF) && final(net)@ == old(net)@ && final(nic)@ == old(
                nic)@,
            Some(s) => if s.kind != Kind::Udp {
                r == SendStep::Failed(EINVAL) && final(net)@ == old(net)@ && final(nic)@ == old(
                    nic)@
            } else {
                let here = if s.local_port == 0 { next_port(old(net)@) } else { s.local_port };
                &&& final(net)@ == if s.local_port == 0 {
                    with_slot(
                        port_drawn(old(net)@),
                        id as int,
                        Some(Sock { local_port: here, ..s }),
                    )
                } else {
                    old(net)@
                }
                &&& datagram_step(
                    cache@,
                    old(nic)@,
                    ip@,
                    port,
                    here,
                    data@,
                    now,
                    r,
                    final(nic)@,
                )
            },
        },
{
    let ghost s = sock(net@, id)->0;
    let local = match net.get(id) {
        None => {
            return SendStep::Failed(EBADF);
        },
        Some(ep) => {
            if ep.kind != Kind::Udp {
                return SendStep::Failed(EINVAL);
            }
            ep.local_port
        },
    };
    let src_port = if local == 0 {
        let p = net.alloc_ephemeral();
        let ghost drawn = net@;
        if let Some(ep) = &mut net.slots[id] {
            ep.local_port = p;
        }
        assert(net@.socks =~= drawn.socks.update(id as int, Some(Sock { local_port: p, ..s })));
        p
    } else {
        local
    };
    start_datagram(cache, nic, ip, port, src_port, data, now)
}

/// The source address of a received datagram, for `recvfrom`'s address-out
/// argument.
pub struct RecvMeta {
    pub src_ip: [u8; 4],
    pub src_port: u16,
}

impl Endpoint {
    /// Moves the first `n` bytes of the inbox to the front of `buf`.
    fn take_inbox(&mut self, buf: &mut Vec<u8>, n: usize)
        requires
            n <= old(self)@.inbox.len(),
            n <= old(buf)@.len(),
        ensures
            final(self)@ == (Sock { inbox: old(self)@.inbox.skip(n as int), ..old(self)@ }),
            final(buf)@ == splice(old(buf)@, 0, old(self)@.inbox.take(n as int)),
    {
        let ghost q = self@.inbox;
        let mut i: usize = 0;
        assert(self@.inbox =~= q.skip(0));
        while i < n
            invariant
                i <= n <= q.len(),
                n <= buf@.len(),
                buf@.len() == old(buf)@.len(),
                q == old(self)@.inbox,
                self@ == (Sock { inbox: q.skip(i as int), ..old(self)@ }),
                buf@ =~= splice(old(buf)@, 0, q.take(i as int)),
            decreases n - i,
        {
            let ghost before = self@;
            let b = match self.inbox.pop_front() {
                Some(b) => b,
                None => 0,
            };
            assert(b == q[i as int]);
            assert(self@.inbox =~= q.skip(i + 1));
            buf.set(i, b);
            i += 1;
        }
    }

    /// Appends received bytes to the inbox.
    fn fill_inbox(&mut self, data: &Vec<u8>)
        ensures
            final(self)@ == (Sock { inbox: old(self)@.inbox + data@, ..old(self)@ }),
    {
        let mut i: usize = 0;
        assert(self@.inbox =~= old(self)@.inbox + data@.take(0));
        while i < data.len()
            invariant
                i <= data@.len(),
                self@ == (Sock { inbox: old(self)@.inbox + data@.take(i as int), ..old(self)@ }),
            decreases data@.len() - i,
        {
            self.inbox.push_back(data[i]);
            i += 1;
            assert(self@.inbox =~= old(self)@.inbox + data@.take(i as int));
        }
        assert(data@.take(i as int) =~= data@);
    }

    /// Takes the oldest datagram; as much of it as fits goes to the front
    /// of `buf`.
    fn take_datagram(&mut self, buf: &mut Vec<u8>) -> (r: Option<(usize, RecvMeta)>)
        ensures
            match datagram_taken(old(self)@, old(buf)@) {
                Some((s, d, b)) => r matches Some((n, meta)) && n == lesser(
                    d.payload.len() as int,
                    old(buf)@.len() as int,
                ) && meta.src_ip@ == d.src_ip && meta.src_port == d.src_port && final(self)@ == s
                    && final(buf)@ == b,
                None => r is None && final(self)@ == old(self)@ && final(buf)@ == old(buf)@,
            },
    {
        let ghost q = self.udp_inbox@;
        match self.udp_inbox.pop_front() {
            None => {
                assert(self@ == old(self)@);
                None
            },
            Some(pkt) => {
                assert(self@.udp_inbox =~= datagrams(q).skip(1));
                assert(datagrams(q)[0] == pkt@);
                let n: usize = if pkt.payload.len() < buf.len() {
                    pkt.payload.len()
                } else {
                    buf.len()
                };
                let part = slice_subrange(pkt.payload.as_slice(), 0, n);
                assert(part@ =~= pkt.payload@.take(n as int));
                copy_into(buf, 0, part);
                Some((n, RecvMeta { src_ip: pkt.src_ip, src_port: pkt.src_port }))
            },
        }
    }
}

/// Socket, datagram and buffer after the oldest datagram was read.
pub open spec fn datagram_taken(s: Sock, buf: Seq<u8>) -> Option<(Sock, Datagram, Seq<u8>)> {
    if s.udp_inbox.len() == 0 {
        None
    } else {
        let d = s.udp_inbox[0];
        let n = lesser(d.payload.len() as int, buf.len() as int);
        Some(
            (
                Sock { udp_inbox: s.udp_inbox.skip(1), ..s },
                d,
                splice(buf, 0, d.payload.take(n)),
            ),
        )
    }
}

/// What reading a TCP socket comes to: result, socket and buffer.
pub open spec fn stream_read(s: Sock, buf: Seq<u8>) -> (Result<usize, i32>, Sock, Seq<u8>) {
    if s.rst {
        (Err(ECONNRESET), s, buf)
    } else {
        let n = lesser(s.inbox.len() as int, buf.len() as int);
        (
            if n > 0 {
                Ok(n as usize)
            } else if s.eof {
                Ok(0)
            } else {
                Err(EAGAIN)
            },
            Sock { inbox: s.inbox.skip(n), ..s },
            splice(buf, 0, s.inbox.take(n)),
        )
    }
}

/// What reading a socket comes to.
pub open spec fn received(s: Sock, buf: Seq<u8>) -> (Result<usize, i32>, Sock, Seq<u8>) {
    match s.kind {
        Kind::Tcp => stream_read(s, buf),
        Kind::Udp => match datagram_taken(s, buf) {
            Some((u, d, b)) => (
                Ok(lesser(d.payload.len() as int, buf.len() as int) as usize),
                u,
                b,
            ),
            None => (Err(EAGAIN), s, buf),
        },
    }
}

/// Pops received bytes (TCP) or one datagram (UDP) without blocking.
/// TCP: `Ok(n)` with n > 0 is data, `Ok(0)` is EOF (FIN seen), and
/// `Err(EAGAIN)` means nothing available yet. UDP: pops one whole
/// datagram; `Err(EAGAIN)` when the queue is empty.
pub fn recv(net: &mut Sockets, id: usize, buf: &mut Vec<u8>) -> (r: Result<usize, i32>)
    ensures
        match sock(old(net)@, id) {
            None => r == Err::<usize, i32>(EBADF) && final(net)@ == old(net)@ && final(buf)@ == old(
                buf)@,
            Some(s) => {
                let (res, t, b) = received(s, old(buf)@);
                &&& r == res
                &&& final(net)@ == with_slot(old(net)@, id as int, Some(t))
                &&& final(buf)@ == b
            },
        },
{
    if net.get(id).is_none() {
        return Err(EBADF);
    }
    let ghost s = sock(net@, id)->0;
    let mut r: Result<usize, i32> = Err(EBADF);
    if let Some(ep) = &mut net.slots[id] {
        match ep.kind {
            Kind::Tcp => {
                if ep.rst {
                    r = Err(ECONNRESET);
                } else {
                    let n: usize = if ep.inbox.len() < buf.len() {
                        ep.inbox.len()
                    } else {
                        buf.len()
                    };
                    ep.take_inbox(buf, n);
                    r = if n > 0 {
                        Ok(n)
                    } else if ep.eof {
                        Ok(0)
                    } else {
                        Err(EAGAIN)
                    };
                }
            },
            Kind::Udp => {
                r = match ep.take_datagram(buf) {
                    Some((n, _)) => Ok(n),
                    None => Err(EAGAIN),
                };
            },
        }
    }
    assert(net@.socks =~= old(net)@.socks.update(id as int, Some(received(s, old(buf)@).1)));
    r
}

/// `recvfrom`: like `recv`, but also reports the sender's address.
pub fn recv_from(net: &mut Sockets, id: usize, buf: &mut Vec<u8>) -> (r: Result<
    (usize, RecvMeta),
    i32,
>)
    ensures
        match sock(old(net)@, id) {
            None => r is Err && r->Err_0 == EBADF && final(net)@ == old(net)@ && final(buf)@ == old(
                buf)@,
            Some(s) => {
                let (res, t, b) = received(s, old(buf)@);
                &&& final(net)@ == with_slot(old(net)@, id as int, Some(t))
                &&& final(buf)@ == b
                &&& match res {
                    Err(e) => r is Err && r->Err_0 == e,
                    Ok(n) => {
                        &&& r matches Ok((got, meta))
                        &&& got == n
                        &&& match s.kind {
                            Kind::Udp => meta.src_ip@ == s.udp_inbox[0].src_ip && meta.src_port
                                == s.udp_inbox[0].src_port,
                            Kind::Tcp => match peer(s) {
                                Some((ip, port)) => meta.src_ip@ == ip && meta.src_port == port,
                                None => meta.src_ip@ == seq![0u8, 0u8, 0u8, 0u8] && meta.src_port
                                    == 0,
                            },
                        }
                    },
                }
            },
        },
{
    match kind_of(net, id) {
        Kind::Tcp => {
            let n = match recv(net, id, buf) {
                Err(e) => {
                    return Err(e);
                },
                Ok(n) => n,
            };
            let zero = [0u8, 0, 0, 0];
            assert(zero@ =~= seq![0u8, 0u8, 0u8, 0u8]);
            let (src_ip, src_port) = match peer_of(net, id) {
                Some(p) => p,
                None => (zero, 0),
            };
            Ok((n, RecvMeta { src_ip, src_port }))
        },
        Kind::Udp => {
            if net.get(id).is_none() {
                return Err(EBADF);
            }
            let ghost s = sock(net@, id)->0;
            let mut r: Option<(usize, RecvMeta)> = None;
            if let Some(ep) = &mut net.slots[id] {
                r = ep.take_datagram(buf);
            }
            assert(net@.socks =~= old(net)@.socks.update(
                id as int,
                Some(received(s, old(buf)@).1),
            ));
            match r {
                Some(x) => Ok(x),
                None => Err(EAGAIN),
            }
        },
    }
}

/// `shutdown(how)`: SHUT_WR/SHUT_RDWR send the FIN on a TCP connection.
pub fn shutdown(net: &mut Sockets, nic: &mut E1000, id: usize, how: u64) -> (r: Result<(), i32>)
    ensures
        match sock(old(net)@, id) {
            None => r == Err::<(), i32>(EBADF) && final(net)@ == old(net)@ && final(nic)@ == old(
                nic)@,
            Some(s) => if !established(s) || how == 0 {
                r == Ok::<(), i32>(()) && final(net)@ == old(net)@ && final(nic)@ == old(nic)@
            } else {
                let t = s.tcp->0;
                &&& final(nic)@ == after_tcp(old(nic)@, t.dst_mac, t.dst_ip, fin_segment(s, t))
                &&& if ipv4_error(old(nic)@, 20) is Some {
                    r == Err::<(), i32>(EIO) && final(net)@ == old(net)@
                } else {
                    let u = Conn {
                        our_seq: seq_plus(t.our_seq, 1),
                        state: TcpState::FinSent,
                        ..t
                    };
                    &&& r == Ok::<(), i32>(())
                    &&& final(net)@ == with_slot(
                        old(net)@,
                        id as int,
                        Some(Sock { tcp: Some(u), ..s }),
                    )
                }
            },
        },
{
    let ghost s = sock(net@, id)->0;
    let (src_port, mut t) = match net.get(id) {
        None => {
            return Err(EBADF);
        },
        Some(ep) => match ep.tcp {
            None => {
                return Ok(());
            },
            Some(t) => (ep.local_port, t),
        },
    };
    if t.state == TcpState::Established && how != 0 {
        let seg = bare_segment(src_port, t.dst_port, t.our_seq, t.their_next, 0x11, t.dst_ip);
        if send_tcp(nic, t.dst_mac, t.dst_ip, seg.as_slice()).is_err() {
            return Err(EIO);
        }
        t.our_seq = t.our_seq.wrapping_add(1);
        t.state = TcpState::FinSent;
        if let Some(ep) = &mut net.slots[id] {
            ep.tcp = Some(t);
        }
        assert(net@.socks =~= old(net)@.socks.update(
            id as int,
            Some(Sock { tcp: Some(t@), ..s }),
        ));
    }
    Ok(())
}

// ---------------------------------------------------------------------
// RX pump
// ---------------------------------------------------------------------

/// The first UDP socket bound to `port`, from slot `i` on.
pub open spec fn udp_slot(socks: Seq<Option<Sock>>, port: u16, i: int) -> int
    decreases socks.len() - i,
{
    if i >= socks.len() || (socks[i] matches Some(s) && s.kind == Kind::Udp && s.local_port
        == port) {
        i
    } else {
        udp_slot(socks, port, i + 1)
    }
}

/// The table after a UDP packet came in: it is queued on the first socket
/// bound to its destination port, unless that holds 64 datagrams already.
pub open spec fn after_udp_packet(t: Table, src_ip: Seq<u8>, p: Seq<u8>) -> Table {
    if p.len() < 8 {
        t
    } else {
        let i = udp_slot(t.socks, be16(p, 2), 0);
        if i < t.socks.len() && t.socks[i]->0.udp_inbox.len() < 64 {
            let s = t.socks[i]->0;
            let d = Datagram { src_ip, src_port: be16(p, 0), payload: p.skip(8) };
            with_slot(t, i, Some(Sock { udp_inbox: s.udp_inbox.push(d), ..s }))
        } else {
            t
        }
    }
}

fn dispatch_udp(net: &mut Sockets, src_ip: [u8; 4], payload: &[u8])
    ensures
        final(net)@ == after_udp_packet(old(net)@, src_ip@, payload@),
{
    if payload.len() < 8 {
        return;
    }
    let src_port = get_be16(payload, 0);
    let dst_port = get_be16(payload, 2);
    let i = match net.find_udp(dst_port) {
        None => {
            return;
        },
        Some(i) => i,
    };
    let ghost s = net@.socks[i as int]->0;
    let ghost d = Datagram { src_ip: src_ip@, src_port, payload: payload@.skip(8) };
    if let Some(ep) = &mut net.slots[i] {
        if ep.udp_inbox.len() < 64 {
            let body = slice_subrange(payload, 8, payload.len());
            let mut data: Vec<u8> = Vec::new();
            data.extend_from_slice(body);
            assert(data@ =~= payload@.skip(8));
            ep.udp_inbox.push_back(UdpPacket { src_ip, src_port, payload: data });
        }
    }
    proof {
        if s.udp_inbox.len() < 64 {
            assert(net@.socks[i as int]->0.udp_inbox =~= s.udp_inbox.push(d));
            assert(net@.socks =~= old(net)@.socks.update(
                i as int,
                Some(Sock { udp_inbox: s.udp_inbox.push(d), ..s }),
            ));
        } else {
            assert(net@.socks =~= old(net)@.socks);
        }
    }
}

/// A segment to send in reply.
pub struct Reply {
    pub mac: Seq<u8>,
    pub ip: Seq<u8>,
    pub seg: Seq<u8>,
}

/// The card after a reply, if there is one, was sent.
pub open spec fn after_reply(n: Nic, r: Option<Reply>) -> Nic {
    match r {
        Some(r) => after_tcp(n, r.mac, r.ip, r.seg),
        None => n,
    }
}

/// A reply without data on a connection.
pub open spec fn conn_reply(s: Sock, t: Conn, ack: u32, flags: u8) -> Reply {
    Reply {
        mac: t.dst_mac,
        ip: t.dst_ip,
        seg: tcp_segment(s.local_port, t.dst_port, t.our_seq, ack, flags, Seq::empty(), t.dst_ip),
    }
}

/// Whether a socket is the connection that a segment belongs to.
pub open spec fn conn_matches(s: Option<Sock>, src_ip: Seq<u8>, g: Segment) -> bool {
    s matches Some(s) && s.kind == Kind::Tcp && s.local_port == g.dst_port && (s.tcp matches Some(t)
        && t.dst_ip == src_ip && t.dst_port == g.src_port)
}

/// The first connection that a segment belongs to, from slot `i` on.
pub open spec fn conn_slot(socks: Seq<Option<Sock>>, src_ip: Seq<u8>, g: Segment, i: int) -> int
    decreases socks.len() - i,
{
    if i >= socks.len() || conn_matches(socks[i], src_ip, g) {
        i
    } else {
        conn_slot(socks, src_ip, g, i + 1)
    }
}

/// The first listener on `port`, from slot `i` on.
pub open spec fn listener_slot(socks: Seq<Option<Sock>>, port: u16, i: int) -> int
    decreases socks.len() - i,
{
    if i >= socks.len() || (socks[i] matches Some(s) && s.kind == Kind::Tcp && s.listening
        && s.local_port == port) {
        i
    } else {
        listener_slot(socks, port, i + 1)
    }
}

/// The socket after it took in a segment's data and FIN, and what to
/// acknowledge. Data goes to the inbox only if it is what is expected next;
/// anything else (gap, retransmit) is dropped and what is expected is
/// acknowledged again. So it is with a FIN, whose place is behind the data:
/// it counts only where that is what is expected next.
pub open spec fn absorbed(s: Sock, g: Segment) -> (Sock, u32) {
    let t = s.tcp->0;
    let want = t.their_next;
    let take = g.payload.len() > 0 && g.seq == want;
    let next = if take { seq_plus(want, g.payload.len() as int) } else { want };
    let fin = g.flags & 0x01 != 0 && seq_plus(g.seq, g.payload.len() as int) == next;
    (
        Sock {
            inbox: if take {
                s.inbox + g.payload
            } else {
                s.inbox
            },
            eof: s.eof || fin,
            tcp: Some(Conn { their_next: next, ..t }),
            ..s
        },
        if fin {
            seq_plus(next, 1)
        } else {
            next
        },
    )
}

/// A segment on a connection whose SYN is out.
pub open spec fn in_syn_sent(s: Sock, t: Conn, g: Segment) -> (Sock, Option<Reply>) {
    if g.flags & 0x04 != 0 {
        (Sock { rst: true, ..s }, None)
    } else if g.flags & 0x12 == 0x12 {
        let u = Conn {
            their_isn: g.seq,
            their_next: seq_plus(g.seq, 1),
            state: TcpState::Established,
            ..t
        };
        let r = Sock { tcp: Some(u), ..s };
        (r, Some(conn_reply(r, u, seq_plus(g.seq, 1), 0x10)))
    } else {
        (s, None)
    }
}

/// A segment on an open connection.
pub open spec fn in_established(s: Sock, t: Conn, g: Segment) -> (Sock, Option<Reply>) {
    if g.flags & 0x04 != 0 {
        (Sock { rst: true, ..s }, None)
    } else {
        let (u, ack) = absorbed(s, g);
        (u, Some(conn_reply(s, t, ack, 0x10)))
    }
}

/// The table after a connection was put on its listener's accept queue,
/// unless the listener is gone or its queue is full.
pub open spec fn queued(t: Table, lid: Option<usize>, child: int) -> Table {
    match lid {
        None => t,
        Some(l) => match sock(t, l) {
            None => t,
            Some(s) => if s.accept_queue.len() < 16 {
                with_slot(
                    t,
                    l as int,
                    Some(Sock { accept_queue: s.accept_queue.push(child as usize), ..s }),
                )
            } else {
                t
            },
        },
    }
}

/// A connection that waited for the final ACK, open if it came.
pub open spec fn opened_child(s: Sock, c: Conn, acked: bool) -> Sock {
    Sock {
        tcp: Some(
            Conn {
                state: if acked {
                    TcpState::Established
                } else {
                    c.state
                },
                ..c
            },
        ),
        ..s
    }
}

/// A segment on a connection that waits for the final ACK, in slot `i`:
/// a RST drops it, a repeated SYN is answered again with the same initial
/// sequence number, and the ACK opens it,
/// queues it on its listener and hands in whatever it carried.
pub open spec fn in_syn_received(t: Table, i: int, g: Segment) -> (Table, Option<Reply>) {
    let s = t.socks[i]->0;
    let c = s.tcp->0;
    let acked = g.flags & 0x10 != 0;
    if g.flags & 0x04 != 0 {
        (with_slot(t, i, None), None)
    } else if g.flags & 0x02 != 0 && !acked {
        let first = Conn { our_seq: server_isn(c.their_isn), ..c };
        (t, Some(conn_reply(s, first, seq_plus(c.their_isn, 1), 0x12)))
    } else {
        let u = if acked { queued(t, c.listener, i) } else { t };
        let (v, ack) = absorbed(opened_child(u.socks[i]->0, c, acked), g);
        (with_slot(u, i, Some(v)), Some(conn_reply(s, c, ack, 0x10)))
    }
}

/// The initial sequence number with which a SYN is answered.
pub open spec fn server_isn(syn: u32) -> u32 {
    seq_plus(0x00AC_CE55, syn as int)
}

/// The child connection that a SYN to listener `l` starts.
pub open spec fn child_of(l: int, src_ip: Seq<u8>, mac: Seq<u8>, g: Segment) -> Sock {
    Sock {
        local_port: g.dst_port,
        tcp: Some(
            Conn {
                state: TcpState::SynReceived,
                dst_ip: src_ip,
                dst_port: g.src_port,
                dst_mac: mac,
                our_seq: seq_plus(server_isn(g.seq), 1),
                their_isn: g.seq,
                their_next: seq_plus(g.seq, 1),
                arp_sent: true,
                listener: Some(l as usize),
            },
        ),
        ..fresh(Kind::Tcp)
    }
}

/// A segment that belongs to no connection: only a bare SYN to a listener
/// whose sender's MAC address is known starts a new one.
pub open spec fn in_listen(
    t: Table,
    cache: Seq<(Seq<u8>, Seq<u8>)>,
    src_ip: Seq<u8>,
    g: Segment,
) -> (Table, Option<Reply>) {
    let l = listener_slot(t.socks, g.dst_port, 0);
    let mac = cached(cache, src_ip);
    if l >= t.socks.len() || g.flags & 0x02 == 0 || g.flags & 0x10 != 0 || mac is None {
        (t, None)
    } else {
        (
            placed(t, child_of(l, src_ip, mac->0, g)),
            Some(
                Reply {
                    mac: mac->0,
                    ip: src_ip,
                    seg: tcp_segment(
                        g.dst_port,
                        g.src_port,
                        server_isn(g.seq),
                        seq_plus(g.seq, 1),
                        0x12,
                        Seq::empty(),
                        src_ip,
                    ),
                },
            ),
        )
    }
}

/// The table after a TCP segment came in, and the reply to it.
pub open spec fn after_tcp_segment(
    t: Table,
    cache: Seq<(Seq<u8>, Seq<u8>)>,
    src_ip: Seq<u8>,
    g: Segment,
) -> (Table, Option<Reply>) {
    let i = conn_slot(t.socks, src_ip, g, 0);
    if i >= t.socks.len() {
        in_listen(t, cache, src_ip, g)
    } else {
        let s = t.socks[i]->0;
        let c = s.tcp->0;
        match c.state {
            TcpState::Idle => (t, None),
            TcpState::SynReceived => in_syn_received(t, i, g),
            TcpState::SynSent => {
                let (u, r) = in_syn_sent(s, c, g);
                (with_slot(t, i, Some(u)), r)
            },
            _ => {
                let (u, r) = in_established(s, c, g);
                (with_slot(t, i, Some(u)), r)
            },
        }
    }
}

impl Endpoint {
    /// Takes in the reply to our SYN; true if it has to be answered.
    fn take_syn_reply(&mut self, seg: &TcpSegment) -> (r: bool)
        requires
            old(self)@.tcp is Some,
        ensures
            final(self)@ == in_syn_sent(old(self)@, old(self)@.tcp->0, seg@).0,
            r == (in_syn_sent(old(self)@, old(self)@.tcp->0, seg@).1 is Some),
    {
        if seg.flags & TCP_RST != 0 {
            self.rst = true;
            return false;
        }
        if seg.flags & 0x12 == 0x12 {
            if let Some(t0) = self.tcp {
                let mut t = t0;
                t.their_initial_seq = seg.seq;
                t.their_next = seg.seq.wrapping_add(1);
                t.state = TcpState::Established;
                self.tcp = Some(t);
                return true;
            }
        }
        false
    }

    /// Takes in a segment's data and FIN; gives what to acknowledge.
    fn absorb(&mut self, seg: &TcpSegment) -> (r: u32)
        requires
            old(self)@.tcp is Some,
        ensures
            final(self)@ == absorbed(old(self)@, seg@).0,
            r == absorbed(old(self)@, seg@).1,
    {
        let mut ack: u32 = 0;
        let mut fin = false;
        if let Some(t0) = self.tcp {
            let mut t = t0;
            if seg.payload.len() > 0 && seg.seq == t.their_next {
                self.fill_inbox(&seg.payload);
                t.their_next = advanced(t.their_next, seg.payload.len());
            }
            ack = t.their_next;
            fin = seg.flags & TCP_FIN != 0 && advanced(seg.seq, seg.payload.len()) == ack;
            self.tcp = Some(t);
        }
        if fin {
            self.eof = true;
            ack = ack.wrapping_add(1);
        }
        assert(self@ == absorbed(old(self)@, seg@).0);
        ack
    }
}

impl Sockets {
    fn find_conn(&self, src_ip: [u8; 4], seg: &TcpSegment) -> (r: Option<usize>)
        ensures
            match r {
                Some(i) => i == conn_slot(self@.socks, src_ip@, seg@, 0) && i < self.slots@.len()
                    && conn_matches(self@.socks[i as int], src_ip@, seg@),
                None => conn_slot(self@.socks, src_ip@, seg@, 0) >= self@.socks.len(),
            },
    {
        let mut i: usize = 0;
        while i < self.slots.len()
            invariant
                i <= self.slots@.len(),
                conn_slot(self@.socks, src_ip@, seg@, 0) == conn_slot(
                    self@.socks,
                    src_ip@,
                    seg@,
                    i as int,
                ),
            decreases self.slots@.len() - i,
        {
            if let Some(ep) = &self.slots[i] {
                if ep.kind == Kind::Tcp && ep.local_port == seg.dst_port {
                    if let Some(t) = ep.tcp {
                        if same_ip(t.dst_ip, src_ip) && t.dst_port == seg.src_port {
                            return Some(i);
                        }
                    }
                }
            }
            i += 1;
        }
        None
    }

    fn find_udp(&self, port: u16) -> (r: Option<usize>)
        ensures
            match r {
                Some(i) => i == udp_slot(self@.socks, port, 0) && i < self@.socks.len()
                    && self@.socks[i as int] is Some,
                None => udp_slot(self@.socks, port, 0) >= self@.socks.len(),
            },
    {
        let mut i: usize = 0;
        while i < self.slots.len()
            invariant
                i <= self.slots@.len(),
                udp_slot(self@.socks, port, 0) == udp_slot(self@.socks, port, i as int),
            decreases self.slots@.len() - i,
        {
            if let Some(ep) = &self.slots[i] {
                if ep.kind == Kind::Udp && ep.local_port == port {
                    return Some(i);
                }
            }
            i += 1;
        }
        None
    }

    /// Opens a connection if the segment acknowledges it, and takes in what
    /// the segment carries; gives what to acknowledge.
    fn open_child(&mut self, idx: usize, t: TcpCtl, acked: bool, seg: &TcpSegment) -> (r: u32)
        requires
            idx < old(self)@.socks.len(),
            old(self)@.socks[idx as int] is Some,
            old(self)@.socks[idx as int]->0.tcp == Some(t@),
        ensures
            ({
                let opened = opened_child(old(self)@.socks[idx as int]->0, t@, acked);
                let (v, ack) = absorbed(opened, seg@);
                &&& final(self)@ == with_slot(old(self)@, idx as int, Some(v))
                &&& r == ack
            }),
    {
        let ghost before = self@.socks[idx as int]->0;
        let mut ack: u32 = 0;
        if let Some(ep) = &mut self.slots[idx] {
            if acked {
                let mut opened = t;
                opened.state = TcpState::Established;
                ep.tcp = Some(opened);
            }
            assert(ep@ == opened_child(before, t@, acked));
            ack = ep.absorb(seg);
        }
        proof {
            let v = absorbed(opened_child(before, t@, acked), seg@).0;
            assert(self@.socks[idx as int] == Some(v));
            assert(self@.socks =~= old(self)@.socks.update(idx as int, Some(v)));
        }
        ack
    }

    fn find_listener(&self, port: u16) -> (r: Option<usize>)
        ensures
            match r {
                Some(i) => i == listener_slot(self@.socks, port, 0) && i < self@.socks.len(),
                None => listener_slot(self@.socks, port, 0) >= self@.socks.len(),
            },
    {
        let mut i: usize = 0;
        while i < self.slots.len()
            invariant
                i <= self.slots@.len(),
                listener_slot(self@.socks, port, 0) == listener_slot(self@.socks, port, i as int),
            decreases self.slots@.len() - i,
        {
            if let Some(ep) = &self.slots[i] {
                if ep.kind == Kind::Tcp && ep.listening && ep.local_port == port {
                    return Some(i);
                }
            }
            i += 1;
        }
        None
    }

    /// Puts a connection on its listener's accept queue.
    fn queue_child(&mut self, lid: Option<usize>, child: usize)
        ensures
            final(self)@ == queued(old(self)@, lid, child as int),
    {
        let l = match lid {
            None => {
                return;
            },
            Some(l) => l,
        };
        if self.get(l).is_none() {
            return;
        }
        let ghost s = sock(self@, l)->0;
        if let Some(ep) = &mut self.slots[l] {
            if ep.accept_queue.len() < 16 {
                ep.accept_queue.push_back(child);
            }
        }
        proof {
            if s.accept_queue.len() < 16 {
                assert(self@.socks =~= old(self)@.socks.update(
                    l as int,
                    Some(Sock { accept_queue: s.accept_queue.push(child), ..s }),
                ));
            } else {
                assert(self@.socks =~= old(self)@.socks);
            }
        }
    }
}

/// A segment on a connection whose SYN is out.
fn segment_in_syn_sent(net: &mut Sockets, nic: &mut E1000, idx: usize, seg: &TcpSegment)
    requires
        idx < old(net)@.socks.len(),
        old(net)@.socks[idx as int] is Some,
        old(net)@.socks[idx as int]->0.tcp is Some,
    ensures
        ({
            let s = old(net)@.socks[idx as int]->0;
            let (u, r) = in_syn_sent(s, s.tcp->0, seg@);
            &&& final(net)@ == with_slot(old(net)@, idx as int, Some(u))
            &&& final(nic)@ == after_reply(old(nic)@, r)
        }),
{
    let ghost s = net@.socks[idx as int]->0;
    let ghost u = in_syn_sent(s, s.tcp->0, seg@).0;
    let mut answer = false;
    if let Some(ep) = &mut net.slots[idx] {
        answer = ep.take_syn_reply(seg);
    }
    assert(net@.socks[idx as int] == Some(u));
    assert(net@.socks =~= old(net)@.socks.update(idx as int, Some(u)));
    if answer {
        if let Some(ep) = net.get(idx) {
            if let Some(t) = ep.tcp {
                let ack = seg.seq.wrapping_add(1);
                let reply = bare_segment(
                    ep.local_port,
                    t.dst_port,
                    t.our_seq,
                    ack,
                    TCP_ACK,
                    t.dst_ip,
                );
                let _ = send_tcp(nic, t.dst_mac, t.dst_ip, reply.as_slice());
            }
        }
    }
}

/// A segment on an open connection.
fn segment_in_established(net: &mut Sockets, nic: &mut E1000, idx: usize, seg: &TcpSegment)
    requires
        idx < old(net)@.socks.len(),
        old(net)@.socks[idx as int] is Some,
        old(net)@.socks[idx as int]->0.tcp is Some,
    ensures
        ({
            let s = old(net)@.socks[idx as int]->0;
            let (u, r) = in_established(s, s.tcp->0, seg@);
            &&& final(net)@ == with_slot(old(net)@, idx as int, Some(u))
            &&& final(nic)@ == after_reply(old(nic)@, r)
        }),
{
    let ghost s = net@.socks[idx as int]->0;
    let ghost u = in_established(s, s.tcp->0, seg@).0;
    if let Some(ep) = &mut net.slots[idx] {
        if seg.flags & TCP_RST != 0 {
            ep.rst = true;
        } else {
            if let Some(t) = ep.tcp {
                let ack = ep.absorb(seg);
                let reply = bare_segment(
                    ep.local_port,
                    t.dst_port,
                    t.our_seq,
                    ack,
                    TCP_ACK,
                    t.dst_ip,
                );
                let _ = send_tcp(nic, t.dst_mac, t.dst_ip, reply.as_slice());
            }
        }
    }
    assert(net@.socks[idx as int] == Some(u));
    assert(net@.socks =~= old(net)@.socks.update(idx as int, Some(u)));
}

/// A segment on a connection that waits for the final ACK.
fn segment_in_syn_received(net: &mut Sockets, nic: &mut E1000, idx: usize, seg: &TcpSegment)
    requires
        idx < old(net)@.socks.len(),
        old(net)@.socks[idx as int] is Some,
        old(net)@.socks[idx as int]->0.tcp is Some,
    ensures
        final(net)@ == in_syn_received(old(net)@, idx as int, seg@).0,
        final(nic)@ == after_reply(old(nic)@, in_syn_received(old(net)@, idx as int, seg@).1),
{
    let ghost s = net@.socks[idx as int]->0;
    if seg.flags & TCP_RST != 0 {
        net.slots.set(idx, None);
        assert(net@.socks =~= old(net)@.socks.update(idx as int, None));
        return;
    }
    let (local_port, t) = match net.get(idx) {
        None => {
            return;
        },
        Some(ep) => match ep.tcp {
            None => {
                return;
            },
            Some(t) => (ep.local_port, t),
        },
    };
    let acked = seg.flags & TCP_ACK != 0;
    if seg.flags & TCP_SYN != 0 && !acked {
        let ack = t.their_initial_seq.wrapping_add(1);
        let isn = 0x00AC_CE55u32.wrapping_add(t.their_initial_seq);
        assert(isn == server_isn(t.their_initial_seq));
        let reply = bare_segment(local_port, t.dst_port, isn, ack, 0x12, t.dst_ip);
        let _ = send_tcp(nic, t.dst_mac, t.dst_ip, reply.as_slice());
        return;
    }
    if acked {
        net.queue_child(t.listener, idx);
    }
    let ack = net.open_child(idx, t, acked, seg);
    let reply = bare_segment(local_port, t.dst_port, t.our_seq, ack, TCP_ACK, t.dst_ip);
    let _ = send_tcp(nic, t.dst_mac, t.dst_ip, reply.as_slice());
}

/// A segment that belongs to no connection.
fn segment_in_listen(
    net: &mut Sockets,
    cache: &ArpCache,
    nic: &mut E1000,
    src_ip: [u8; 4],
    seg: &TcpSegment,
)
    ensures
        final(net)@ == in_listen(old(net)@, cache@, src_ip@, seg@).0,
        final(nic)@ == after_reply(old(nic)@, in_listen(old(net)@, cache@, src_ip@, seg@).1),
{
    let listener = match net.find_listener(seg.dst_port) {
        None => {
            return;
        },
        Some(l) => l,
    };
    if seg.flags & TCP_SYN == 0 || seg.flags & TCP_ACK != 0 {
        return;
    }
    let src_mac = match arp_lookup(cache, src_ip) {
        None => {
            return;
        },
        Some(m) => m,
    };
    let isn = 0x00AC_CE55u32.wrapping_add(seg.seq);
    assert(isn == server_isn(seg.seq));
    let child = Endpoint {
        kind: Kind::Tcp,
        local_port: seg.dst_port,
        udp_peer: None,
        tcp: Some(
            TcpCtl {
                state: TcpState::SynReceived,
                dst_ip: src_ip,
                dst_port: seg.src_port,
                dst_mac: src_mac,
                our_seq: isn.wrapping_add(1),
                their_initial_seq: seg.seq,
                their_next: seg.seq.wrapping_add(1),
                arp_sent: true,
                listener: Some(listener),
            },
        ),
        listening: false,
        accept_queue: VecDeque::new(),
        inbox: VecDeque::new(),
        udp_inbox: VecDeque::new(),
        eof: false,
        rst: false,
        nonblock: false,
    };
    assert(child@.udp_inbox =~= Seq::<Datagram>::empty());
    assert(child@ == child_of(listener as int, src_ip@, src_mac@, seg@));
    let _ = net.alloc_endpoint(child);
    let ack = seg.seq.wrapping_add(1);
    let reply = bare_segment(seg.dst_port, seg.src_port, isn, ack, 0x12, src_ip);
    let _ = send_tcp(nic, src_mac, src_ip, reply.as_slice());
}

/// Table and card after a TCP packet came in.
pub open spec fn after_tcp_packet(
    t: Table,
    cache: Seq<(Seq<u8>, Seq<u8>)>,
    n: Nic,
    src_ip: Seq<u8>,
    p: Seq<u8>,
) -> (Table, Nic) {
    match tcp_of(p) {
        None => (t, n),
        Some(g) => {
            let (u, r) = after_tcp_segment(t, cache, src_ip, g);
            (u, after_reply(n, r))
        },
    }
}

fn dispatch_tcp(
    net: &mut Sockets,
    cache: &ArpCache,
    nic: &mut E1000,
    src_ip: [u8; 4],
    payload: &[u8],
)
    ensures
        (final(net)@, final(nic)@) == after_tcp_packet(
            old(net)@,
            cache@,
            old(nic)@,
            src_ip@,
            payload@,
        ),
{
    let seg = match parse_tcp(payload) {
        None => {
            return;
        },
        Some(s) => s,
    };
    match net.find_conn(src_ip, &seg) {
        None => {
            segment_in_listen(net, cache, nic, src_ip, &seg);
        },
        Some(idx) => {
            let state = match net.get(idx) {
                None => TcpState::Idle,
                Some(ep) => match ep.tcp {
                    None => TcpState::Idle,
                    Some(t) => t.state,
                },
            };
            match state {
                TcpState::Idle => {},
                TcpState::SynSent => segment_in_syn_sent(net, nic, idx, &seg),
                TcpState::SynReceived => segment_in_syn_received(net, nic, idx, &seg),
                TcpState::Established | TcpState::FinSent => segment_in_established(
                    net,
                    nic,
                    idx,
                    &seg,
                ),
            }
        },
    }
}

/// Sockets, ARP cache and card.
pub struct World {
    pub table: Table,
    pub cache: Seq<(Seq<u8>, Seq<u8>)>,
    pub nic: Nic,
}

/// Whether a socket's SYN waits for the MAC address of `ip`.
pub open spec fn awaits(s: Option<Sock>, ip: Seq<u8>) -> bool {
    s matches Some(s) && (s.tcp matches Some(t) && t.state == TcpState::SynSent && t.dst_ip == ip
        && !t.arp_sent)
}

/// The table with the peer's MAC address filed for a connection.
pub open spec fn resolved(t: Table, id: int, mac: Seq<u8>) -> Table {
    let s = t.socks[id]->0;
    with_slot(t, id, Some(Sock { tcp: Some(Conn { dst_mac: mac, ..s.tcp->0 }), ..s }))
}

/// Table and card after the SYNs of the first `k` sockets that wait for
/// the MAC address of `ip` were sent to `mac`.
pub open spec fn syns_sent(t: Table, n: Nic, ip: Seq<u8>, mac: Seq<u8>, k: nat) -> (Table, Nic)
    decreases k,
{
    if k == 0 {
        (t, n)
    } else {
        let (u, m) = syns_sent(t, n, ip, mac, (k - 1) as nat);
        if awaits(u.socks[k - 1], ip) {
            let (r, v, o) = syn_sent(resolved(u, k - 1, mac), m, (k - 1) as usize);
            (v, o)
        } else {
            (u, m)
        }
    }
}

/// What a received frame brings.
pub open spec fn after_frame(w: World, frame: Seq<u8>) -> World {
    if frame.len() < 14 {
        w
    } else if be16(frame, 12) == 0x0806 {
        match arp_reply_mac(frame) {
            None => w,
            Some(mac) => {
                let ip = frame.subrange(28, 32);
                let (t, n) = syns_sent(w.table, w.nic, ip, mac, w.table.socks.len());
                World { table: t, cache: learned(w.cache, ip, mac), nic: n }
            },
        }
    } else if be16(frame, 12) != 0x0800 {
        w
    } else {
        match ipv4_of(frame) {
            None => w,
            Some(p) => if p.proto == 17 {
                World { table: after_udp_packet(w.table, p.src, p.payload), ..w }
            } else if p.proto == 6 {
                let (t, n) = after_tcp_packet(w.table, w.cache, w.nic, p.src, p.payload);
                World { table: t, nic: n, ..w }
            } else {
                w
            },
        }
    }
}

/// What the first `k` of the received frames `rx` bring.
pub open spec fn after_frames(w: World, rx: Seq<Seq<u8>>, k: nat) -> World
    decreases k,
{
    if k == 0 {
        w
    } else {
        let v = after_frames(w, rx, (k - 1) as nat);
        after_frame(World { nic: after_receive(v.nic), ..v }, rx[k - 1])
    }
}

proof fn lemma_syns_keep(t: Table, n: Nic, ip: Seq<u8>, mac: Seq<u8>, k: nat)
    requires
        k <= t.socks.len(),
    ensures
        syns_sent(t, n, ip, mac, k).0.socks.len() == t.socks.len(),
        syns_sent(t, n, ip, mac, k).1.rx == n.rx,
        syns_sent(t, n, ip, mac, k).1.up == n.up,
    decreases k,
{
    if k > 0 {
        lemma_syns_keep(t, n, ip, mac, (k - 1) as nat);
    }
}

proof fn lemma_frame_keeps_ring(w: World, frame: Seq<u8>)
    ensures
        after_frame(w, frame).nic.rx == w.nic.rx,
        after_frame(w, frame).nic.up == w.nic.up,
{
    let ip = frame.subrange(28, 32);
    if arp_reply_mac(frame) is Some {
        lemma_syns_keep(w.table, w.nic, ip, arp_reply_mac(frame)->0, w.table.socks.len());
    }
}

/// Sends the SYNs that waited for the MAC address of `ip`, now that it is
/// known.
fn send_waiting_syns(net: &mut Sockets, nic: &mut E1000, ip: [u8; 4], mac: [u8; 6])
    ensures
        (final(net)@, final(nic)@) == syns_sent(
            old(net)@,
            old(nic)@,
            ip@,
            mac@,
            old(net)@.socks.len(),
        ),
{
    let n = net.slots.len();
    let mut i: usize = 0;
    while i < n
        invariant
            i <= n,
            n == old(net)@.socks.len(),
            net@.socks.len() == n,
            (net@, nic@) == syns_sent(old(net)@, old(nic)@, ip@, mac@, i as nat),
        decreases n - i,
    {
        let waits = match net.get(i) {
            None => false,
            Some(ep) => match ep.tcp {
                None => false,
                Some(t) => t.state == TcpState::SynSent && same_ip(t.dst_ip, ip) && !t.arp_sent,
            },
        };
        proof {
            lemma_syns_keep(old(net)@, old(nic)@, ip@, mac@, (i + 1) as nat);
        }
        if waits {
            net.set_mac(i, mac);
            let _ = send_syn(net, nic, i);
        }
        i += 1;
    }
}

/// Dispatches one received frame.
fn dispatch(net: &mut Sockets, cache: &mut ArpCache, nic: &mut E1000, frame: &[u8])
    ensures
        (World { table: final(net)@, cache: final(cache)@, nic: final(nic)@ }) == after_frame(
            World { table: old(net)@, cache: old(cache)@, nic: old(nic)@ },
            frame@,
        ),
{
    if frame.len() < 14 {
        return;
    }
    let ethertype = get_be16(frame, 12);
    if ethertype == ETHERTYPE_ARP {
        if let Some(mac) = parse_arp_reply(frame) {
            if let Some(ip) = arp_reply_ip(frame) {
                cache_arp(cache, ip, mac);
                send_waiting_syns(net, nic, ip, mac);
            }
        }
        return;
    }
    if ethertype != ETHERTYPE_IPV4 {
        return;
    }
    if let Some((src_ip, _, proto, payload)) = parse_ipv4(frame) {
        if proto == IP_PROTO_UDP {
            dispatch_udp(net, src_ip, payload);
        } else if proto == IP_PROTO_TCP {
            dispatch_tcp(net, cache, nic, src_ip, payload);
        }
    }
}

/// What pumping brings: every received frame is dispatched in turn.
pub open spec fn pumped(w: World) -> World {
    if w.nic.up {
        after_frames(w, w.nic.rx, w.nic.rx.len())
    } else {
        w
    }
}

/// Drains the received frames, dispatching every one:
/// - ARP replies update the cache, and any TCP endpoint stuck in
///   SynSent waiting on that address gets its SYN sent now.
/// - UDP datagrams go to the endpoint bound to their destination port.
/// - TCP segments go to the matching connection, driving the handshake
///   and appending data / marking EOF / noting RST.
pub fn pump(net: &mut Sockets, cache: &mut ArpCache, nic: &mut E1000)
    ensures
        (World { table: final(net)@, cache: final(cache)@, nic: final(nic)@ }) == pumped(
            World { table: old(net)@, cache: old(cache)@, nic: old(nic)@ },
        ),
{
    let ghost w = World { table: net@, cache: cache@, nic: nic@ };
    let ghost rx = nic@.rx;
    let ghost mut k: nat = 0;
    assert(rx.skip(0) =~= rx);
    loop
        invariant
            w == (World { table: old(net)@, cache: old(cache)@, nic: old(nic)@ }),
            rx == w.nic.rx,
            k <= rx.len(),
            !w.nic.up ==> k == 0,
            nic@.up == w.nic.up,
            nic@.rx == rx.skip(k as int),
            (World { table: net@, cache: cache@, nic: nic@ }) == after_frames(w, rx, k),
        decreases rx.len() - k,
    {
        let frame = match poll_rx(nic) {
            None => {
                return;
            },
            Some(f) => f,
        };
        proof {
            let v = after_frames(w, rx, k);
            lemma_frame_keeps_ring(World { nic: after_receive(v.nic), ..v }, frame@);
            k = k + 1;
            assert(rx.skip(k - 1).skip(1) =~= rx.skip(k as int));
        }
        dispatch(net, cache, nic, frame.as_slice());
    }
}

/// How far waiting for a MAC address has come.
pub enum MacStep {
    Ready([u8; 6]),
    Failed(i32),
    Wait,
}

/// One round of waiting for the MAC address of `ip`: the received frames
/// are dispatched, and the cache is asked again.
pub fn ensure_mac(
    net: &mut Sockets,
    cache: &mut ArpCache,
    nic: &mut E1000,
    ip: [u8; 4],
    deadline: u64,
    now: u64,
) -> (r: MacStep)
    ensures
        ({
            let w = pumped(World { table: old(net)@, cache: old(cache)@, nic: old(nic)@ });
            &&& (World { table: final(net)@, cache: final(cache)@, nic: final(nic)@ }) == w
            &&& match cached(w.cache, ip@) {
                Some(m) => r matches MacStep::Ready(got) && got@ == m,
                None => r == if now >= deadline {
                    MacStep::Failed(ETIMEDOUT)
                } else {
                    MacStep::Wait
                },
            }
        }),
{
    pump(net, cache, nic);
    if let Some(mac) = arp_lookup(cache, ip) {
        return MacStep::Ready(mac);
    }
    if now >= deadline {
        return MacStep::Failed(ETIMEDOUT);
    }
    MacStep::Wait
}

// ---------------------------------------------------------------------
// Laws
// ---------------------------------------------------------------------

proof fn lemma_conn_slot(socks: Seq<Option<Sock>>, src_ip: Seq<u8>, g: Segment, i: int)
    requires
        0 <= i <= socks.len(),
    ensures
        i <= conn_slot(socks, src_ip, g, i) <= socks.len(),
        conn_slot(socks, src_ip, g, i) < socks.len() ==> conn_matches(
            socks[conn_slot(socks, src_ip, g, i)],
            src_ip,
            g,
        ),
    decreases socks.len() - i,
{
    if i < socks.len() && !conn_matches(socks[i], src_ip, g) {
        lemma_conn_slot(socks, src_ip, g, i + 1);
    }
}

proof fn lemma_vacant(socks: Seq<Option<Sock>>, i: int)
    requires
        0 <= i <= socks.len(),
    ensures
        i <= vacant(socks, i) <= socks.len(),
        vacant(socks, i) < socks.len() ==> socks[vacant(socks, i)] is None,
    decreases socks.len() - i,
{
    if i < socks.len() && socks[i] is Some {
        lemma_vacant(socks, i + 1);
    }
}

proof fn lemma_free_port(t: Table, base: int, i: int)
    requires
        0 <= base < 0x4000,
        0 <= i <= 0x4000,
    ensures
        free_port(t, base, i) >= 0xC000,
        (exists|k: int| i <= k < 0x4000 && !port_taken(t, #[trigger] ephemeral_port(base, k)))
            ==> !port_taken(t, free_port(t, base, i)),
    decreases 0x4000 - i,
{
    if i < 0x4000 {
        lemma_free_port(t, base, i + 1);
    }
}

/// A port handed out is in the ephemeral range, and no socket holds it
/// unless every ephemeral port is held.
pub proof fn law_ephemeral_ports(t: Table)
    ensures
        next_port(t) >= 0xC000,
        (exists|p: u16| p >= 0xC000 && !port_taken(t, p)) ==> !port_taken(t, next_port(t)),
{
    let base = t.next as int % 0x4000;
    lemma_free_port(t, base, 0);
    if exists|p: u16| p >= 0xC000 && !port_taken(t, p) {
        let p = choose|p: u16| p >= 0xC000 && !port_taken(t, p);
        let k = (p - 0xC000 - base) % 0x4000;
        assert(ephemeral_port(base, k) == p);
    }
}

/// A successful bind gives the socket a port that no socket held before.
pub proof fn law_bound_ports_are_distinct(t: Table, id: usize, port: u16)
    requires
        bound(t, id, port).0 is Ok,
    ensures
        ({
            let u = bound(t, id, port).1;
            &&& sock(u, id) is Some
            &&& !port_taken(t, sock(u, id)->0.local_port)
            &&& port != 0 ==> sock(u, id)->0.local_port == port
        }),
{
}

/// A TCP segment touches no socket but the connection it belongs to, that
/// connection's listener, and a slot that was vacant.
pub proof fn law_segments_stay_in_their_lane(
    t: Table,
    cache: Seq<(Seq<u8>, Seq<u8>)>,
    src_ip: Seq<u8>,
    g: Segment,
    k: int,
)
    requires
        0 <= k < t.socks.len(),
        t.socks[k] is Some,
        !conn_matches(t.socks[k], src_ip, g),
        forall|i: int|
            #![trigger t.socks[i]]
            0 <= i < t.socks.len() && conn_matches(t.socks[i], src_ip, g)
                ==> t.socks[i]->0.tcp->0.listener != Some(k as usize),
        k <= usize::MAX,
    ensures
        after_tcp_segment(t, cache, src_ip, g).0.socks[k] == t.socks[k],
{
    lemma_conn_slot(t.socks, src_ip, g, 0);
    lemma_vacant(t.socks, 0);
    let i = conn_slot(t.socks, src_ip, g, 0);
    if i < t.socks.len() {
        assert(conn_matches(t.socks[i], src_ip, g));
        assert(i != k);
    }
}

/// In-order data is appended to the inbox and acknowledged up to its end;
/// a segment with any other sequence number leaves the inbox as it is, and
/// what is still expected is acknowledged.
pub proof fn law_in_order_data(s: Sock, g: Segment)
    requires
        s.tcp is Some,
        g.payload.len() > 0,
        g.flags & 0x01 == 0,
    ensures
        g.seq == s.tcp->0.their_next ==> absorbed(s, g).0.inbox == s.inbox + g.payload && absorbed(
            s,
            g,
        ).1 == seq_plus(g.seq, g.payload.len() as int) && absorbed(s, g).0.tcp->0.their_next
            == seq_plus(g.seq, g.payload.len() as int),
        g.seq != s.tcp->0.their_next ==> absorbed(s, g) == (s, s.tcp->0.their_next),
{
    assert(absorbed(s, g).0.eof == s.eof);
}

/// A segment that neither starts nor ends at what is expected next is
/// dropped as a whole, its FIN too; a FIN on a segment in order ends the
/// stream and is acknowledged.
pub proof fn law_fin_counts_in_order(s: Sock, g: Segment)
    requires
        s.tcp is Some,
    ensures
        ({
            let want = s.tcp->0.their_next;
            let end = seq_plus(g.seq, g.payload.len() as int);
            &&& g.seq != want && end != want ==> absorbed(s, g) == (s, want)
            &&& g.seq == want && g.flags & 0x01 != 0 ==> absorbed(s, g).0.eof && absorbed(s, g).1
                == seq_plus(end, 1) && absorbed(s, g).0.inbox == s.inbox + g.payload
        }),
{
    assert(absorbed(s, g).0.inbox =~= if g.seq == s.tcp->0.their_next {
        s.inbox + g.payload
    } else {
        s.inbox
    });
}

/// A SYN that is repeated before the handshake is through gets the answer
/// that the first one got.
pub proof fn law_repeated_syn_is_answered_alike(
    t: Table,
    cache: Seq<(Seq<u8>, Seq<u8>)>,
    src_ip: Seq<u8>,
    g: Segment,
    later: Table,
    i: int,
    again: Segment,
)
    requires
        in_listen(t, cache, src_ip, g).1 is Some,
        0 <= i < later.socks.len(),
        later.socks[i] == Some(
            child_of(listener_slot(t.socks, g.dst_port, 0), src_ip, cached(cache, src_ip)->0, g),
        ),
        again.flags & 0x02 != 0,
        again.flags & 0x10 == 0,
        again.flags & 0x04 == 0,
    ensures
        in_syn_received(later, i, again) == (later, in_listen(t, cache, src_ip, g).1),
{
}

/// What the reader takes does not change what is expected next: a segment
/// that follows on from one that was accepted is in order, however much of
/// the inbox was read in between.
pub proof fn law_stream_goes_on_after_a_read(s: Sock, g: Segment, h: Segment, buf: Seq<u8>)
    requires
        s.kind == Kind::Tcp,
        s.tcp is Some,
        g.payload.len() > 0,
        g.seq == s.tcp->0.their_next,
        h.payload.len() > 0,
        h.seq == seq_plus(g.seq, g.payload.len() as int),
        h.flags & 0x01 == 0,
    ensures
        ({
            let read = received(absorbed(s, g).0, buf).1;
            &&& absorbed(read, h).0.inbox == read.inbox + h.payload
            &&& absorbed(read, h).1 == seq_plus(h.seq, h.payload.len() as int)
        }),
{
}

/// A client whose SYN is answered with SYN-ACK is established and knows
/// the server's sequence number; one whose SYN is answered with RST is
/// refused.
pub proof fn law_client_handshake(s: Sock, t: Conn, g: Segment)
    requires
        s.tcp == Some(t),
        t.state == TcpState::SynSent,
    ensures
        g.flags & 0x04 != 0 ==> in_syn_sent(s, t, g).0.rst && in_syn_sent(s, t, g).0.tcp == s.tcp,
        g.flags & 0x04 == 0 && g.flags & 0x12 == 0x12 ==> established(in_syn_sent(s, t, g).0)
            && in_syn_sent(s, t, g).0.tcp->0.their_isn == g.seq,
        g.flags & 0x04 == 0 && g.flags & 0x12 != 0x12 ==> in_syn_sent(s, t, g) == (
            s,
            None::<Reply>,
        ),
{
}

/// The final ACK of a handshake opens the connection and puts it at the
/// end of its listener's accept queue, if that has room.
pub proof fn law_server_handshake(t: Table, i: int, l: usize, g: Segment)
    requires
        0 <= i < t.socks.len(),
        i <= usize::MAX,
        t.socks[i] is Some,
        t.socks[i]->0.tcp is Some,
        t.socks[i]->0.tcp->0.listener == Some(l),
        l != i,
        sock(t, l) is Some,
        sock(t, l)->0.accept_queue.len() < 16,
        g.flags & 0x04 == 0,
        g.flags & 0x10 != 0,
    ensures
        ({
            let u = in_syn_received(t, i, g).0;
            &&& established(u.socks[i]->0)
            &&& u.socks[l as int]->0.accept_queue == sock(t, l)->0.accept_queue.push(i as usize)
        }),
{
}

/// Datagrams are read whole, one per read, and in the order in which they
/// came: a read gives the oldest, and one that comes in goes behind all that
/// wait.
pub proof fn law_datagram_boundaries(s: Sock, d: Datagram, buf: Seq<u8>)
    requires
        s.kind == Kind::Udp,
        s.udp_inbox.len() > 0,
        s.udp_inbox[0].payload.len() <= buf.len(),
        buf.len() <= usize::MAX,
    ensures
        ({
            let q = Sock { udp_inbox: s.udp_inbox.push(d), ..s };
            let (r, u, b) = received(q, buf);
            let oldest = s.udp_inbox[0].payload;
            &&& r == Ok::<usize, i32>(oldest.len() as usize)
            &&& b.take(oldest.len() as int) == oldest
            &&& u == (Sock { udp_inbox: s.udp_inbox.skip(1).push(d), ..s })
        }),
{
    let q = Sock { udp_inbox: s.udp_inbox.push(d), ..s };
    let (r, u, b) = received(q, buf);
    assert(b.take(s.udp_inbox[0].payload.len() as int) =~= s.udp_inbox[0].payload);
    assert(q.udp_inbox.skip(1) =~= s.udp_inbox.skip(1).push(d));
}

} // verus!
