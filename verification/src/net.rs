//! Minimal network stack over the e1000 driver: Ethernet framing,
//! ARP (with a small cache), IPv4, UDP, and a minimal TCP client,
//! enough for request/response traffic through QEMU's user-mode
//! network (guest 10.0.2.15, gateway 10.0.2.2, DNS 10.0.2.3).
//!
//! Nothing here waits: what takes several rounds is a step that the caller
//! repeats, halting in between when it is told to.

use crate::bytes::{
    be16, be16_bytes, be32, be32_bytes, copy_into, get_be16, get_be32, push_be16, push_be32, splice,
};
use crate::e1000::{
    after_receive, after_send, poll_rx, send, send_error, E1000, Nic,
};
use crate::text::{
    chars_of, dec, hex2, parse_uint, parsed_uint, pieces, push_dec, push_hex2, push_str,
    split_at_each, string_of, views,
};
use vstd::prelude::*;
use vstd::slice::slice_subrange;
use vstd::utf8::encode_utf8;

verus! {

pub const ETHERTYPE_ARP: u16 = 0x0806;

pub const ETHERTYPE_IPV4: u16 = 0x0800;

pub const ARP_REQUEST: u16 = 1;

pub const ARP_REPLY: u16 = 2;

pub const IP_PROTO_UDP: u8 = 17;

pub const IP_PROTO_TCP: u8 = 6;

/// This guest's address on the QEMU user-mode network.
pub const OUR_IP: [u8; 4] = [10, 0, 2, 15];

/// QEMU user-net gateway (the host, NATed).
pub const GATEWAY_IP: [u8; 4] = [10, 0, 2, 2];

/// QEMU user-net's built-in DNS forwarder.
pub const DNS_IP: [u8; 4] = [10, 0, 2, 3];

/// How long to wait for an ARP reply (100 Hz ticks).
pub const ARP_TIMEOUT_TICKS: u64 = 300;

pub const TCP_SYN: u8 = 0x02;

pub const TCP_ACK: u8 = 0x10;

pub const TCP_FIN: u8 = 0x01;

pub const TCP_PSH: u8 = 0x08;

pub const TCP_RST: u8 = 0x04;

// ---------------------------------------------------------------------
// Helpers
// ---------------------------------------------------------------------

/// The big-endian 16-bit word `j` of the data; an odd last byte is the
/// high half of its word.
pub open spec fn word(d: Seq<u8>, j: int) -> nat {
    if 2 * j + 1 < d.len() {
        (d[2 * j] * 0x100 + d[2 * j + 1]) as nat
    } else {
        (d[2 * j] * 0x100) as nat
    }
}

/// The sum of the first `n` words.
pub open spec fn word_sum(d: Seq<u8>, n: nat) -> nat
    decreases n,
{
    if n == 0 {
        0
    } else {
        word_sum(d, (n - 1) as nat) + word(d, n - 1)
    }
}

/// A sum with its carries added back until it fits 16 bits.
pub open spec fn folded(s: nat) -> nat {
    if s == 0 {
        0
    } else {
        ((s - 1) % 0xFFFF + 1) as nat
    }
}

/// One's-complement Internet checksum.
pub open spec fn checksum_of(d: Seq<u8>) -> u16 {
    (0xFFFF - folded(word_sum(d, (d.len() + 1) / 2))) as u16
}

/// One's-complement Internet checksum.
pub fn checksum(data: &[u8]) -> (r: u16)
    requires
        data.len() <= 0xFFFF_FFFF,
    ensures
        r == checksum_of(data@),
{
    let mut sum: u64 = 0;
    let mut i: usize = 0;
    let ghost mut j: nat = 0;
    while i + 1 < data.len()
        invariant
            i == 2 * j,
            i <= data@.len() <= 0xFFFF_FFFF,
            sum == word_sum(data@, j),
            sum <= j * 0xFFFF,
        decreases data@.len() - i,
    {
        sum = sum + (data[i] as u64 * 0x100 + data[i + 1] as u64);
        i += 2;
        proof {
            j = j + 1;
        }
    }
    if i < data.len() {
        sum = sum + data[i] as u64 * 0x100;
        proof {
            j = j + 1;
        }
    }
    assert(j == (data@.len() + 1) / 2);
    let ghost total = sum as nat;
    while sum >= 0x1_0000
        invariant
            folded(sum as nat) == folded(total),
        decreases sum,
    {
        let lo = sum % 0x1_0000;
        let hi = sum / 0x1_0000;
        assert((lo + hi - 1 + 0xFFFF * hi) % 0xFFFF == (lo + hi - 1) % 0xFFFF);
        assert(sum - 1 == lo + hi - 1 + 0xFFFF * hi);
        sum = lo + hi;
    }
    0xFFFF - sum as u16
}

proof fn lemma_word_sum_update(d: Seq<u8>, k: nat, v: u16, n: nat)
    requires
        2 * k + 1 < d.len(),
        d[2 * k as int] == 0,
        d[2 * k as int + 1] == 0,
        2 * n <= d.len() + 1,
    ensures
        word_sum(splice(d, 2 * k as int, be16_bytes(v)), n) == word_sum(d, n) + if k < n {
            v as nat
        } else {
            0
        },
    decreases n,
{
    if n > 0 {
        lemma_word_sum_update(d, k, v, (n - 1) as nat);
    }
}

/// Filling in the checksum of data whose checksum word was zero makes the
/// checksum over the whole come out as zero, which is how a receiver
/// checks it.
pub proof fn law_checksum_verifies(d: Seq<u8>, k: nat)
    requires
        2 * k + 1 < d.len(),
        d[2 * k as int] == 0,
        d[2 * k as int + 1] == 0,
    ensures
        checksum_of(splice(d, 2 * k as int, be16_bytes(checksum_of(d)))) == 0,
{
    let n = (d.len() + 1) / 2;
    let s = word_sum(d, n);
    let v = checksum_of(d);
    lemma_word_sum_update(d, k, v, n);
    let t = s + v;
    if s > 0 {
        let q = (s - 1) / 0xFFFF;
        assert(t == 0xFFFF * (q + 1));
        assert((t - 1) % 0xFFFF == 0xFFFE);
    }
}

/// Whether two addresses are the same.
pub fn same_ip(a: [u8; 4], b: [u8; 4]) -> (r: bool)
    ensures
        r == (a@ == b@),
{
    let r = a[0] == b[0] && a[1] == b[1] && a[2] == b[2] && a[3] == b[3];
    assert(r ==> a@ =~= b@);
    r
}

fn ip_at(b: &[u8], i: usize) -> (r: [u8; 4])
    requires
        i + 4 <= b.len(),
    ensures
        r@ == b@.subrange(i as int, i + 4),
{
    let r = [b[i], b[i + 1], b[i + 2], b[i + 3]];
    assert(r@ =~= b@.subrange(i as int, i + 4));
    r
}

/// A MAC address for printing: six pairs of hexadecimal digits.
pub open spec fn mac_text(m: Seq<u8>) -> Seq<char> {
    hex2(m[0]) + seq![':'] + hex2(m[1]) + seq![':'] + hex2(m[2]) + seq![':'] + hex2(m[3])
        + seq![':'] + hex2(m[4]) + seq![':'] + hex2(m[5])
}

/// Formats a MAC for printing.
pub fn mac_to_str(mac: &[u8; 6]) -> (r: String)
    ensures
        r@ == mac_text(mac@),
{
    let mut out: Vec<char> = Vec::new();
    push_hex2(&mut out, mac[0]);
    out.push(':');
    push_hex2(&mut out, mac[1]);
    out.push(':');
    push_hex2(&mut out, mac[2]);
    out.push(':');
    push_hex2(&mut out, mac[3]);
    out.push(':');
    push_hex2(&mut out, mac[4]);
    out.push(':');
    push_hex2(&mut out, mac[5]);
    assert(out@ =~= mac_text(mac@));
    string_of(&out)
}

/// The address that a dotted quad stands for.
pub open spec fn dotted_quad(s: Seq<char>) -> Option<Seq<u8>> {
    let p = pieces(s, '.');
    if p.len() == 4 && parsed_uint(p[0], 255) is Some && parsed_uint(p[1], 255) is Some
        && parsed_uint(p[2], 255) is Some && parsed_uint(p[3], 255) is Some {
        Some(
            seq![
                parsed_uint(p[0], 255)->0 as u8,
                parsed_uint(p[1], 255)->0 as u8,
                parsed_uint(p[2], 255)->0 as u8,
                parsed_uint(p[3], 255)->0 as u8,
            ],
        )
    } else {
        None
    }
}

/// Parses a dotted-quad string into an IPv4 address.
pub fn parse_ip(s: &str) -> (r: Option<[u8; 4]>)
    ensures
        match dotted_quad(s@) {
            Some(q) => r is Some && r->0@ == q,
            None => r is None,
        },
{
    let chars = chars_of(s);
    let parts = split_at_each(&chars, '.');
    let ghost p = pieces(s@, '.');
    assert(p.len() == parts@.len());
    if parts.len() != 4 {
        return None;
    }
    assert(p[0] == parts@[0]@ && p[1] == parts@[1]@ && p[2] == parts@[2]@ && p[3] == parts@[3]@);
    match (
        parse_uint(&parts[0], 255),
        parse_uint(&parts[1], 255),
        parse_uint(&parts[2], 255),
        parse_uint(&parts[3], 255),
    ) {
        (Some(a), Some(b), Some(c), Some(d)) => {
            let r = [a as u8, b as u8, c as u8, d as u8];
            assert(r@ =~= dotted_quad(s@)->0);
            Some(r)
        },
        _ => None,
    }
}

// ---------------------------------------------------------------------
// ARP
// ---------------------------------------------------------------------

/// The ARP cache: the few addresses resolved last.
pub struct ArpCache {
    entries: Vec<([u8; 4], [u8; 6])>,
}

impl View for ArpCache {
    type V = Seq<(Seq<u8>, Seq<u8>)>;

    closed spec fn view(&self) -> Seq<(Seq<u8>, Seq<u8>)> {
        Seq::new(self.entries@.len(), |i: int| (self.entries@[i].0@, self.entries@[i].1@))
    }
}

/// The MAC address of the first entry for `ip`.
pub open spec fn cached(entries: Seq<(Seq<u8>, Seq<u8>)>, ip: Seq<u8>) -> Option<Seq<u8>>
    decreases entries.len(),
{
    if entries.len() == 0 {
        None
    } else if entries[0].0 == ip {
        Some(entries[0].1)
    } else {
        cached(entries.skip(1), ip)
    }
}

/// The entries for other addresses.
pub open spec fn others(entries: Seq<(Seq<u8>, Seq<u8>)>, ip: Seq<u8>) -> Seq<(Seq<u8>, Seq<u8>)>
    decreases entries.len(),
{
    if entries.len() == 0 {
        Seq::empty()
    } else {
        let rest = others(entries.drop_last(), ip);
        if entries.last().0 == ip {
            rest
        } else {
            rest.push(entries.last())
        }
    }
}

/// The cache after an address was learned; of more than eight entries the
/// oldest goes.
pub open spec fn learned(
    entries: Seq<(Seq<u8>, Seq<u8>)>,
    ip: Seq<u8>,
    mac: Seq<u8>,
) -> Seq<(Seq<u8>, Seq<u8>)> {
    let all = others(entries, ip).push((ip, mac));
    if all.len() > 8 {
        all.skip(1)
    } else {
        all
    }
}

impl ArpCache {
    pub fn new() -> (r: Self)
        ensures
            r@ == Seq::<(Seq<u8>, Seq<u8>)>::empty(),
    {
        let r = ArpCache { entries: Vec::new() };
        assert(r@ =~= Seq::<(Seq<u8>, Seq<u8>)>::empty());
        r
    }
}

/// Checks the ARP cache (no wire traffic).
pub fn arp_lookup(cache: &ArpCache, target_ip: [u8; 4]) -> (r: Option<[u8; 6]>)
    ensures
        match cached(cache@, target_ip@) {
            Some(m) => r is Some && r->0@ == m,
            None => r is None,
        },
{
    let mut i: usize = 0;
    assert(cache@.skip(0) =~= cache@);
    while i < cache.entries.len()
        invariant
            i <= cache.entries@.len(),
            cached(cache@, target_ip@) == cached(cache@.skip(i as int), target_ip@),
        decreases cache.entries@.len() - i,
    {
        let entry = cache.entries[i];
        assert(cache@.skip(i as int)[0] == (entry.0@, entry.1@));
        assert(cache@.skip(i as int).skip(1) =~= cache@.skip(i + 1));
        if same_ip(entry.0, target_ip) {
            return Some(entry.1);
        }
        i += 1;
    }
    None
}

/// Inserts/updates a cache entry.
pub fn cache_arp(cache: &mut ArpCache, ip: [u8; 4], mac: [u8; 6])
    ensures
        final(cache)@ == learned(old(cache)@, ip@, mac@),
{
    let mut kept: Vec<([u8; 4], [u8; 6])> = Vec::new();
    let mut i: usize = 0;
    let ghost all = cache@;
    while i < cache.entries.len()
        invariant
            i <= cache.entries@.len(),
            *cache == *old(cache),
            all == cache@,
            (ArpCache { entries: kept })@ =~= others(all.take(i as int), ip@),
        decreases cache.entries@.len() - i,
    {
        let entry = cache.entries[i];
        let ghost before = (ArpCache { entries: kept })@;
        assert(all.take(i + 1).drop_last() =~= all.take(i as int));
        assert(all.take(i + 1).last() == (entry.0@, entry.1@));
        if !same_ip(entry.0, ip) {
            kept.push(entry);
            assert((ArpCache { entries: kept })@ =~= before.push((entry.0@, entry.1@)));
        }
        i += 1;
    }
    assert(all.take(i as int) =~= all);
    let ghost before = (ArpCache { entries: kept })@;
    kept.push((ip, mac));
    assert((ArpCache { entries: kept })@ =~= before.push((ip@, mac@)));
    let ghost full = (ArpCache { entries: kept })@;
    if kept.len() > 8 {
        let gone = kept.remove(0);
        assert((ArpCache { entries: kept })@ =~= full.skip(1));
    }
    cache.entries = kept;
}

proof fn lemma_cached_append(
    a: Seq<(Seq<u8>, Seq<u8>)>,
    b: Seq<(Seq<u8>, Seq<u8>)>,
    ip: Seq<u8>,
)
    requires
        forall|i: int| 0 <= i < a.len() ==> (#[trigger] a[i]).0 != ip,
    ensures
        cached(a + b, ip) == cached(b, ip),
    decreases a.len(),
{
    if a.len() == 0 {
        assert(a + b =~= b);
    } else {
        assert((a + b).skip(1) =~= a.skip(1) + b);
        lemma_cached_append(a.skip(1), b, ip);
    }
}

proof fn lemma_others(entries: Seq<(Seq<u8>, Seq<u8>)>, ip: Seq<u8>)
    ensures
        others(entries, ip).len() <= entries.len(),
        forall|i: int|
            0 <= i < others(entries, ip).len() ==> (#[trigger] others(entries, ip)[i]).0 != ip,
    decreases entries.len(),
{
    if entries.len() > 0 {
        lemma_others(entries.drop_last(), ip);
    }
}

/// What was learned last is what a lookup gives, and the cache never holds
/// more than eight entries.
pub proof fn law_lookup_after_learning(
    entries: Seq<(Seq<u8>, Seq<u8>)>,
    ip: Seq<u8>,
    mac: Seq<u8>,
)
    requires
        entries.len() <= 8,
    ensures
        cached(learned(entries, ip, mac), ip) == Some(mac),
        learned(entries, ip, mac).len() <= 8,
{
    lemma_others(entries, ip);
    let o = others(entries, ip);
    let one = seq![(ip, mac)];
    assert(o.push((ip, mac)) =~= o + one);
    lemma_cached_append(o, one, ip);
    if o.len() >= 8 {
        assert(o.push((ip, mac)).skip(1) =~= o.skip(1) + one);
        lemma_cached_append(o.skip(1), one, ip);
    }
}

/// An ARP request for `target` from the card with address `mac`.
pub open spec fn arp_request(mac: Seq<u8>, target: Seq<u8>) -> Seq<u8> {
    seq![0xFFu8, 0xFFu8, 0xFFu8, 0xFFu8, 0xFFu8, 0xFFu8] + mac + be16_bytes(0x0806) + seq![
        0u8, 1u8, 8u8, 0u8, 6u8, 4u8,
    ] + be16_bytes(1) + mac + OUR_IP@ + seq![0u8, 0u8, 0u8, 0u8, 0u8, 0u8] + target
}

fn build_arp_request(mac: [u8; 6], target_ip: [u8; 4]) -> (r: Vec<u8>)
    ensures
        r@ == arp_request(mac@, target_ip@),
        r@.len() == 42,
{
    let mut pkt: Vec<u8> = Vec::new();
    pkt.extend_from_slice(&[0xFFu8, 0xFF, 0xFF, 0xFF, 0xFF, 0xFF]);
    pkt.extend_from_slice(&mac);
    push_be16(&mut pkt, ETHERTYPE_ARP);
    pkt.extend_from_slice(&[0u8, 1, 8, 0, 6, 4]);
    push_be16(&mut pkt, ARP_REQUEST);
    pkt.extend_from_slice(&mac);
    pkt.extend_from_slice(&OUR_IP);
    pkt.extend_from_slice(&[0u8, 0, 0, 0, 0, 0]);
    pkt.extend_from_slice(&target_ip);
    assert(pkt@ =~= arp_request(mac@, target_ip@));
    pkt
}

/// What the card comes to, and what is reported, when an ARP request is
/// sent.
pub open spec fn arp_request_error(n: Nic) -> Option<&'static str> {
    if !n.up {
        Some("NIC down")
    } else {
        send_error(n, 42)
    }
}

pub open spec fn after_arp_request(n: Nic, target: Seq<u8>) -> Nic {
    if n.up {
        after_send(n, arp_request(n.mac, target))
    } else {
        n
    }
}

/// Sends an ARP request for `target_ip` without waiting for the reply.
pub fn send_arp_request(nic: &mut E1000, target_ip: [u8; 4]) -> (r: Result<(), &'static str>)
    ensures
        r == match arp_request_error(old(nic)@) {
            Some(e) => Err::<(), &'static str>(e),
            None => Ok(()),
        },
        final(nic)@ == after_arp_request(old(nic)@, target_ip@),
{
    match crate::e1000::mac(nic) {
        None => Err("NIC down"),
        Some(mac) => {
            let pkt = build_arp_request(mac, target_ip);
            send(nic, pkt.as_slice())
        },
    }
}

/// The sender's hardware address in an ARP reply.
pub open spec fn arp_reply_mac(frame: Seq<u8>) -> Option<Seq<u8>> {
    if frame.len() >= 42 && be16(frame, 12) == 0x0806 && be16(frame, 20) == 2 {
        Some(frame.subrange(22, 28))
    } else {
        None
    }
}

/// Extracts the sender hardware address from an ARP reply frame.
pub fn parse_arp_reply(frame: &[u8]) -> (r: Option<[u8; 6]>)
    ensures
        match arp_reply_mac(frame@) {
            Some(m) => r is Some && r->0@ == m,
            None => r is None,
        },
{
    if frame.len() < 42 {
        return None;
    }
    if get_be16(frame, 12) != ETHERTYPE_ARP {
        return None;
    }
    if get_be16(frame, 20) != ARP_REPLY {
        return None;
    }
    let r = [frame[22], frame[23], frame[24], frame[25], frame[26], frame[27]];
    assert(r@ =~= frame@.subrange(22, 28));
    Some(r)
}

/// The sender's IPv4 address carried by an ARP reply frame.
pub fn arp_reply_ip(frame: &[u8]) -> (r: Option<[u8; 4]>)
    ensures
        r is Some <==> frame@.len() >= 42,
        r matches Some(ip) ==> ip@ == frame@.subrange(28, 32),
{
    if frame.len() < 42 {
        return None;
    }
    Some(ip_at(frame, 28))
}

/// How far resolving an address has come.
pub enum ResolveStep {
    Resolved([u8; 6]),
    Failed,
    /// Nothing yet: poll again, and give up at `deadline`.
    Wait { deadline: u64 },
}

/// Starts resolving `target_ip` to a MAC address: the cache is used first,
/// else an ARP request goes out.
pub fn resolve(
    cache: &ArpCache,
    nic: &mut E1000,
    target_ip: [u8; 4],
    timeout_ticks: u64,
    now: u64,
) -> (r: ResolveStep)
    requires
        now + timeout_ticks <= u64::MAX,
    ensures
        match cached(cache@, target_ip@) {
            Some(m) => {
                &&& r matches ResolveStep::Resolved(got)
                &&& got@ == m
                &&& final(nic)@ == old(nic)@
            },
            None => {
                &&& final(nic)@ == after_arp_request(old(nic)@, target_ip@)
                &&& if arp_request_error(old(nic)@) is Some {
                    r is Failed
                } else {
                    r == ResolveStep::Wait { deadline: (now + timeout_ticks) as u64 }
                }
            },
        },
{
    if let Some(mac) = arp_lookup(cache, target_ip) {
        return ResolveStep::Resolved(mac);
    }
    match send_arp_request(nic, target_ip) {
        Err(_) => ResolveStep::Failed,
        Ok(_) => ResolveStep::Wait { deadline: now + timeout_ticks },
    }
}

/// One look at the receive ring while waiting for an ARP reply. Any other
/// frame is dropped.
pub fn resolve_poll(
    cache: &mut ArpCache,
    nic: &mut E1000,
    target_ip: [u8; 4],
    deadline: u64,
    now: u64,
) -> (r: ResolveStep)
    ensures
        ({
            let some = old(nic)@.up && old(nic)@.rx.len() > 0;
            let reply = if some { arp_reply_mac(old(nic)@.rx[0]) } else { None };
            &&& final(nic)@ == if some { after_receive(old(nic)@) } else { old(nic)@ }
            &&& match reply {
                Some(m) => {
                    &&& r matches ResolveStep::Resolved(got)
                    &&& got@ == m
                    &&& final(cache)@ == learned(old(cache)@, target_ip@, m)
                },
                None => {
                    &&& final(cache)@ == old(cache)@
                    &&& if now >= deadline {
                        r is Failed
                    } else {
                        r == ResolveStep::Wait { deadline }
                    }
                },
            }
        }),
{
    if let Some(frame) = poll_rx(nic) {
        if let Some(sha) = parse_arp_reply(frame.as_slice()) {
            cache_arp(cache, target_ip, sha);
            return ResolveStep::Resolved(sha);
        }
    }
    if now >= deadline {
        return ResolveStep::Failed;
    }
    ResolveStep::Wait { deadline }
}

// ---------------------------------------------------------------------
// IPv4
// ---------------------------------------------------------------------

/// A length as it stands in a 16-bit field.
#[verifier::opaque]
pub open spec fn low16(n: nat) -> u16 {
    (n % 0x1_0000) as u16
}

fn cut16(n: usize) -> (r: u16)
    ensures
        r == low16(n as nat),
{
    reveal(low16);
    (n % 0x1_0000) as u16
}

/// An IPv4 header from this guest, carrying `csum` as its checksum.
pub open spec fn ip_header(proto: u8, dst: Seq<u8>, len: nat, csum: u16) -> Seq<u8> {
    seq![0x45u8, 0u8] + be16_bytes(low16(20 + len)) + seq![
        0u8, 0u8, 0u8, 0u8, 64u8, proto,
    ] + be16_bytes(csum) + OUR_IP@ + dst
}

/// The Ethernet frame that carries an IPv4 packet.
pub open spec fn ipv4_frame(
    src_mac: Seq<u8>,
    dst_mac: Seq<u8>,
    dst: Seq<u8>,
    proto: u8,
    payload: Seq<u8>,
) -> Seq<u8> {
    let csum = checksum_of(ip_header(proto, dst, payload.len(), 0));
    dst_mac + src_mac + be16_bytes(0x0800) + ip_header(proto, dst, payload.len(), csum) + payload
}

fn push_ip_header(out: &mut Vec<u8>, proto: u8, dst_ip: [u8; 4], len: usize, csum: u16)
    requires
        len + 34 <= u32::MAX,
    ensures
        final(out)@ == old(out)@ + ip_header(proto, dst_ip@, len as nat, csum),
{
    out.push(0x45);
    out.push(0);
    push_be16(out, cut16(20 + len));
    out.push(0);
    out.push(0);
    out.push(0);
    out.push(0);
    out.push(64);
    out.push(proto);
    push_be16(out, csum);
    out.extend_from_slice(&OUR_IP);
    out.extend_from_slice(&dst_ip);
    assert(out@ =~= old(out)@ + ip_header(proto, dst_ip@, len as nat, csum));
}

fn build_ipv4(
    src_mac: [u8; 6],
    dst_mac: [u8; 6],
    dst_ip: [u8; 4],
    proto: u8,
    payload: &[u8],
) -> (r: Vec<u8>)
    requires
        payload.len() + 34 <= u32::MAX,
    ensures
        r@ == ipv4_frame(src_mac@, dst_mac@, dst_ip@, proto, payload@),
{
    let mut header: Vec<u8> = Vec::new();
    push_ip_header(&mut header, proto, dst_ip, payload.len(), 0);
    assert(header@ =~= ip_header(proto, dst_ip@, payload@.len(), 0));
    let csum = checksum(header.as_slice());
    let mut frame: Vec<u8> = Vec::new();
    frame.extend_from_slice(&dst_mac);
    frame.extend_from_slice(&src_mac);
    push_be16(&mut frame, ETHERTYPE_IPV4);
    push_ip_header(&mut frame, proto, dst_ip, payload.len(), csum);
    frame.extend_from_slice(payload);
    assert(frame@ =~= ipv4_frame(src_mac@, dst_mac@, dst_ip@, proto, payload@));
    frame
}

/// Why an IPv4 packet with a payload of `len` bytes cannot be sent.
pub open spec fn ipv4_error(n: Nic, len: nat) -> Option<&'static str> {
    if !n.up {
        Some("NIC down")
    } else {
        send_error(n, 34 + len)
    }
}

/// The card after an attempt to send an IPv4 packet.
pub open spec fn after_ipv4(
    n: Nic,
    dst_mac: Seq<u8>,
    dst: Seq<u8>,
    proto: u8,
    payload: Seq<u8>,
) -> Nic {
    if n.up {
        after_send(n, ipv4_frame(n.mac, dst_mac, dst, proto, payload))
    } else {
        n
    }
}

pub open spec fn outcome(e: Option<&'static str>) -> Result<(), &'static str> {
    match e {
        Some(e) => Err(e),
        None => Ok(()),
    }
}

/// Builds and sends an IPv4 packet to `dst_ip` via an already-known
/// `dst_mac`.
pub fn send_ipv4_mac(
    nic: &mut E1000,
    dst_mac: [u8; 6],
    dst_ip: [u8; 4],
    proto: u8,
    payload: &[u8],
) -> (r: Result<(), &'static str>)
    requires
        payload.len() + 34 <= u32::MAX,
    ensures
        r == outcome(ipv4_error(old(nic)@, payload@.len())),
        final(nic)@ == after_ipv4(old(nic)@, dst_mac@, dst_ip@, proto, payload@),
{
    match crate::e1000::mac(nic) {
        None => Err("NIC down"),
        Some(src_mac) => {
            let frame = build_ipv4(src_mac, dst_mac, dst_ip, proto, payload);
            assert(frame@.len() == 34 + payload@.len());
            send(nic, frame.as_slice())
        },
    }
}

/// Builds and sends an IPv4 packet to `dst_ip`, whose MAC address was
/// asked for and is `None` if no answer came.
pub fn send_ipv4(
    nic: &mut E1000,
    dst_mac: Option<[u8; 6]>,
    dst_ip: [u8; 4],
    proto: u8,
    payload: &[u8],
) -> (r: Result<(), &'static str>)
    requires
        payload.len() + 34 <= u32::MAX,
    ensures
        match dst_mac {
            None => r == Err::<(), &'static str>("ARP failed") && final(nic)@ == old(nic)@,
            Some(m) => r == outcome(ipv4_error(old(nic)@, payload@.len())) && final(nic)@
                == after_ipv4(old(nic)@, m@, dst_ip@, proto, payload@),
        },
{
    match dst_mac {
        None => Err("ARP failed"),
        Some(mac) => send_ipv4_mac(nic, mac, dst_ip, proto, payload),
    }
}

/// Source, destination, protocol and payload of an IPv4 packet.
pub struct Packet {
    pub src: Seq<u8>,
    pub dst: Seq<u8>,
    pub proto: u8,
    pub payload: Seq<u8>,
}

/// The IPv4 packet in a frame; none in a frame of another kind or one
/// whose header does not fit.
pub open spec fn ipv4_of(frame: Seq<u8>) -> Option<Packet> {
    let ihl = frame[14] % 16 * 4;
    let total = be16(frame, 16) as int;
    let end = if 14 + total < frame.len() { 14 + total } else { frame.len() as int };
    if frame.len() < 34 || be16(frame, 12) != 0x0800 || ihl < 20 || frame.len() < 14 + ihl || end
        < 14 + ihl {
        None
    } else {
        Some(
            Packet {
                src: frame.subrange(26, 30),
                dst: frame.subrange(30, 34),
                proto: frame[23],
                payload: frame.subrange(14 + ihl, end),
            },
        )
    }
}

/// Parses an Ethernet frame into an IPv4 packet: (src_ip, dst_ip,
/// protocol, payload slice). Returns `None` for non-IPv4 or malformed
/// frames.
pub fn parse_ipv4(frame: &[u8]) -> (r: Option<([u8; 4], [u8; 4], u8, &[u8])>)
    ensures
        match ipv4_of(frame@) {
            Some(p) => r matches Some((s, d, proto, payload)) && s@ == p.src && d@ == p.dst && proto
                == p.proto && payload@ == p.payload,
            None => r is None,
        },
{
    if frame.len() < 34 {
        return None;
    }
    if get_be16(frame, 12) != ETHERTYPE_IPV4 {
        return None;
    }
    let ihl = (frame[14] % 16) as usize * 4;
    if ihl < 20 || frame.len() < 14 + ihl {
        return None;
    }
    let total = get_be16(frame, 16) as usize;
    let end: usize = if 14 + total < frame.len() { 14 + total } else { frame.len() };
    if end < 14 + ihl {
        return None;
    }
    Some((ip_at(frame, 26), ip_at(frame, 30), frame[23], slice_subrange(frame, 14 + ihl, end)))
}

/// A packet that was sent parses back to what was put in.
pub proof fn law_ipv4_round_trip(
    src_mac: Seq<u8>,
    dst_mac: Seq<u8>,
    dst: Seq<u8>,
    proto: u8,
    payload: Seq<u8>,
)
    requires
        src_mac.len() == 6,
        dst_mac.len() == 6,
        dst.len() == 4,
        payload.len() + 20 <= 0xFFFF,
    ensures
        ipv4_of(ipv4_frame(src_mac, dst_mac, dst, proto, payload)) == Some(
            Packet { src: OUR_IP@, dst, proto, payload },
        ),
{
    let f = ipv4_frame(src_mac, dst_mac, dst, proto, payload);
    let csum = checksum_of(ip_header(proto, dst, payload.len(), 0));
    let h = ip_header(proto, dst, payload.len(), csum);
    reveal(low16);
    let len = be16_bytes((20 + payload.len()) as u16);
    assert(f.len() == 34 + payload.len());
    assert(f[12] == 0x08 && f[13] == 0x00);
    assert(f[14] == 0x45);
    assert(f[16] == len[0] && f[17] == len[1]);
    assert(f[23] == proto);
    assert(f.subrange(26, 30) =~= OUR_IP@);
    assert(f.subrange(30, 34) =~= dst);
    assert(f.subrange(34, f.len() as int) =~= payload);
}

/// The checksum of a header that was sent verifies.
pub proof fn law_ipv4_header_verifies(proto: u8, dst: Seq<u8>, len: nat)
    requires
        dst.len() == 4,
    ensures
        checksum_of(ip_header(proto, dst, len, checksum_of(ip_header(proto, dst, len, 0)))) == 0,
{
    let h = ip_header(proto, dst, len, 0);
    law_checksum_verifies(h, 5);
    assert(splice(h, 10, be16_bytes(checksum_of(h))) =~= ip_header(
        proto,
        dst,
        len,
        checksum_of(h),
    ));
}

// ---------------------------------------------------------------------
// UDP
// ---------------------------------------------------------------------

/// What a UDP or TCP checksum is taken over.
pub open spec fn pseudo(dst: Seq<u8>, proto: u8, body: Seq<u8>) -> Seq<u8> {
    OUR_IP@ + dst + seq![0u8, proto] + be16_bytes(low16(body.len())) + body
}

fn pseudo_checksum(dst_ip: [u8; 4], proto: u8, body: &Vec<u8>) -> (r: u16)
    requires
        body.len() + 12 <= u32::MAX,
    ensures
        r == checksum_of(pseudo(dst_ip@, proto, body@)),
{
    let mut p: Vec<u8> = Vec::new();
    p.extend_from_slice(&OUR_IP);
    p.extend_from_slice(&dst_ip);
    p.push(0);
    p.push(proto);
    push_be16(&mut p, cut16(body.len()));
    p.extend_from_slice(body.as_slice());
    assert(p@ =~= pseudo(dst_ip@, proto, body@));
    checksum(p.as_slice())
}

/// A UDP datagram carrying `csum` as its checksum.
pub open spec fn udp_with(dst_port: u16, src_port: u16, payload: Seq<u8>, csum: u16) -> Seq<u8> {
    be16_bytes(src_port) + be16_bytes(dst_port) + be16_bytes(low16(8 + payload.len())) + be16_bytes(csum) + payload
}

/// A UDP datagram with its checksum.
pub open spec fn udp_datagram(
    dst: Seq<u8>,
    dst_port: u16,
    src_port: u16,
    payload: Seq<u8>,
) -> Seq<u8> {
    udp_with(
        dst_port,
        src_port,
        payload,
        checksum_of(pseudo(dst, 17, udp_with(dst_port, src_port, payload, 0))),
    )
}

fn build_udp_with(dst_port: u16, src_port: u16, payload: &[u8], csum: u16) -> (r: Vec<u8>)
    requires
        payload.len() + 42 <= u32::MAX,
    ensures
        r@ == udp_with(dst_port, src_port, payload@, csum),
{
    let mut udp: Vec<u8> = Vec::new();
    push_be16(&mut udp, src_port);
    push_be16(&mut udp, dst_port);
    push_be16(&mut udp, cut16(8 + payload.len()));
    push_be16(&mut udp, csum);
    udp.extend_from_slice(payload);
    assert(udp@ =~= udp_with(dst_port, src_port, payload@, csum));
    udp
}

pub fn build_udp(dst_ip: [u8; 4], dst_port: u16, src_port: u16, payload: &[u8]) -> (r: Vec<u8>)
    requires
        payload.len() + 42 <= u32::MAX,
    ensures
        r@ == udp_datagram(dst_ip@, dst_port, src_port, payload@),
{
    let plain = build_udp_with(dst_port, src_port, payload, 0);
    let csum = pseudo_checksum(dst_ip, IP_PROTO_UDP, &plain);
    build_udp_with(dst_port, src_port, payload, csum)
}

/// The card after an attempt to send a UDP datagram.
pub open spec fn after_udp(
    n: Nic,
    dst_mac: Seq<u8>,
    dst: Seq<u8>,
    dst_port: u16,
    src_port: u16,
    payload: Seq<u8>,
) -> Nic {
    after_ipv4(n, dst_mac, dst, 17, udp_datagram(dst, dst_port, src_port, payload))
}

/// Sends a UDP datagram via an already-known MAC.
pub fn send_udp_mac(
    nic: &mut E1000,
    dst_mac: [u8; 6],
    dst_ip: [u8; 4],
    dst_port: u16,
    src_port: u16,
    payload: &[u8],
) -> (r: Result<(), &'static str>)
    requires
        payload.len() + 42 <= u32::MAX,
    ensures
        r == outcome(ipv4_error(old(nic)@, 8 + payload@.len())),
        final(nic)@ == after_udp(old(nic)@, dst_mac@, dst_ip@, dst_port, src_port, payload@),
{
    let datagram = build_udp(dst_ip, dst_port, src_port, payload);
    send_ipv4_mac(nic, dst_mac, dst_ip, IP_PROTO_UDP, datagram.as_slice())
}

/// Builds and sends a UDP datagram to `dst_ip`, whose MAC address was
/// asked for and is `None` if no answer came.
pub fn send_udp(
    nic: &mut E1000,
    dst_mac: Option<[u8; 6]>,
    dst_ip: [u8; 4],
    dst_port: u16,
    src_port: u16,
    payload: &[u8],
) -> (r: Result<(), &'static str>)
    requires
        payload.len() + 42 <= u32::MAX,
    ensures
        match dst_mac {
            None => r == Err::<(), &'static str>("ARP failed") && final(nic)@ == old(nic)@,
            Some(m) => r == outcome(ipv4_error(old(nic)@, 8 + payload@.len())) && final(nic)@
                == after_udp(old(nic)@, m@, dst_ip@, dst_port, src_port, payload@),
        },
{
    let datagram = build_udp(dst_ip, dst_port, src_port, payload);
    send_ipv4(nic, dst_mac, dst_ip, IP_PROTO_UDP, datagram.as_slice())
}

/// A received UDP datagram.
pub struct UdpPacket {
    pub src_ip: [u8; 4],
    pub src_port: u16,
    pub payload: Vec<u8>,
}

/// Sender and payload of a datagram.
pub struct Datagram {
    pub src_ip: Seq<u8>,
    pub src_port: u16,
    pub payload: Seq<u8>,
}

impl View for UdpPacket {
    type V = Datagram;

    open spec fn view(&self) -> Datagram {
        Datagram { src_ip: self.src_ip@, src_port: self.src_port, payload: self.payload@ }
    }
}

/// The datagram to `port` in a frame.
pub open spec fn udp_of(frame: Seq<u8>, port: u16) -> Option<Datagram> {
    match ipv4_of(frame) {
        None => None,
        Some(p) => if p.proto == 17 && p.payload.len() >= 8 && be16(p.payload, 2) == port {
            Some(
                Datagram {
                    src_ip: p.src,
                    src_port: be16(p.payload, 0),
                    payload: p.payload.skip(8),
                },
            )
        } else {
            None
        },
    }
}

/// The first received frame from `i` on that holds a datagram to `port`.
pub open spec fn first_udp(rx: Seq<Seq<u8>>, port: u16, i: int) -> int
    decreases rx.len() - i,
{
    if i >= rx.len() || udp_of(rx[i], port) is Some {
        i
    } else {
        first_udp(rx, port, i + 1)
    }
}

/// The card after its `k` oldest received frames were taken.
pub open spec fn after_receives(n: Nic, k: int) -> Nic {
    Nic { rx: n.rx.skip(k), rx_count: ((n.rx_count + k) % 0x1_0000_0000_0000_0000) as u64, ..n }
}

/// What polling for a datagram to `port` gives and leaves.
pub open spec fn udp_polled(n: Nic, port: u16) -> (Option<Datagram>, Nic) {
    if !n.up {
        (None, n)
    } else {
        let k = first_udp(n.rx, port, 0);
        if k < n.rx.len() {
            (udp_of(n.rx[k], port), after_receives(n, k + 1))
        } else {
            (None, after_receives(n, n.rx.len() as int))
        }
    }
}

/// Drains the received frames, returning the next UDP datagram addressed
/// to `dst_port` (other frames are dropped).
pub fn poll_udp(nic: &mut E1000, dst_port: u16) -> (r: Option<UdpPacket>)
    ensures
        final(nic)@ == udp_polled(old(nic)@, dst_port).1,
        match udp_polled(old(nic)@, dst_port).0 {
            Some(d) => r is Some && r->0@ == d,
            None => r is None,
        },
{
    let ghost n0 = nic@;
    let ghost mut k: int = 0;
    assert(n0.rx.skip(0) =~= n0.rx);
    loop
        invariant
            n0 == old(nic)@,
            n0.up ==> 0 <= k <= n0.rx.len(),
            n0.up ==> nic@ == after_receives(n0, k),
            !n0.up ==> nic@ == n0,
            n0.up ==> first_udp(n0.rx, dst_port, 0) == first_udp(n0.rx, dst_port, k),
        decreases n0.rx.len() - k,
    {
        let frame = match poll_rx(nic) {
            None => {
                return None;
            },
            Some(f) => f,
        };
        assert(frame@ == n0.rx[k]);
        proof {
            k = k + 1;
            assert(n0.rx.skip(k - 1).skip(1) =~= n0.rx.skip(k));
        }
        match parse_ipv4(frame.as_slice()) {
            None => {},
            Some((src_ip, _, proto, payload)) => {
                if proto == IP_PROTO_UDP && payload.len() >= 8 {
                    let sport = get_be16(payload, 0);
                    let dport = get_be16(payload, 2);
                    if dport == dst_port {
                        let body = slice_subrange(payload, 8, payload.len());
                        let mut data: Vec<u8> = Vec::new();
                        data.extend_from_slice(body);
                        assert(data@ =~= payload@.skip(8));
                        return Some(UdpPacket { src_ip, src_port: sport, payload: data });
                    }
                }
            },
        }
    }
}

/// A datagram that was sent is what a receiver at its port gets.
#[verifier::spinoff_prover]
pub proof fn law_udp_round_trip(
    src_mac: Seq<u8>,
    dst_mac: Seq<u8>,
    dst: Seq<u8>,
    dst_port: u16,
    src_port: u16,
    payload: Seq<u8>,
)
    requires
        src_mac.len() == 6,
        dst_mac.len() == 6,
        dst.len() == 4,
        payload.len() + 28 <= 0xFFFF,
    ensures
        udp_of(
            ipv4_frame(src_mac, dst_mac, dst, 17, udp_datagram(dst, dst_port, src_port, payload)),
            dst_port,
        ) == Some(Datagram { src_ip: OUR_IP@, src_port, payload }),
{
    let u = udp_datagram(dst, dst_port, src_port, payload);
    law_ipv4_round_trip(src_mac, dst_mac, dst, 17, u);
    crate::bytes::lemma_be16_round_trip(src_port);
    crate::bytes::lemma_be16_round_trip(dst_port);
    assert(u[0] == be16_bytes(src_port)[0] && u[1] == be16_bytes(src_port)[1]);
    assert(u[2] == be16_bytes(dst_port)[0] && u[3] == be16_bytes(dst_port)[1]);
    assert(u.skip(8) =~= payload);
}

/// The checksum of a datagram that was sent verifies.
#[verifier::spinoff_prover]
pub proof fn law_udp_verifies(dst: Seq<u8>, dst_port: u16, src_port: u16, payload: Seq<u8>)
    requires
        dst.len() == 4,
    ensures
        checksum_of(pseudo(dst, 17, udp_datagram(dst, dst_port, src_port, payload))) == 0,
{
    let plain = udp_with(dst_port, src_port, payload, 0);
    let zero = pseudo(dst, 17, plain);
    assert(zero[18] == plain[6] && zero[19] == plain[7]);
    law_checksum_verifies(zero, 9);
    let csum = be16_bytes(checksum_of(zero));
    assert(splice(plain, 6, csum) =~= udp_datagram(dst, dst_port, src_port, payload));
    assert(splice(zero, 18, csum) =~= pseudo(dst, 17, splice(plain, 6, csum)));
}

// ---------------------------------------------------------------------
// TCP
// ---------------------------------------------------------------------

/// A received TCP segment.
pub struct TcpSegment {
    pub src_port: u16,
    pub dst_port: u16,
    pub seq: u32,
    pub ack: u32,
    pub flags: u8,
    pub payload: Vec<u8>,
}

/// The fields of a TCP segment.
pub struct Segment {
    pub src_port: u16,
    pub dst_port: u16,
    pub seq: u32,
    pub ack: u32,
    pub flags: u8,
    pub payload: Seq<u8>,
}

impl View for TcpSegment {
    type V = Segment;

    open spec fn view(&self) -> Segment {
        Segment {
            src_port: self.src_port,
            dst_port: self.dst_port,
            seq: self.seq,
            ack: self.ack,
            flags: self.flags,
            payload: self.payload@,
        }
    }
}

/// The TCP segment in an IPv4 payload.
pub open spec fn tcp_of(p: Seq<u8>) -> Option<Segment> {
    let data_offset = p[12] / 16 * 4;
    if p.len() < 20 || data_offset < 20 || p.len() < data_offset {
        None
    } else {
        Some(
            Segment {
                src_port: be16(p, 0),
                dst_port: be16(p, 2),
                seq: be32(p, 4),
                ack: be32(p, 8),
                flags: p[13],
                payload: p.skip(data_offset as int),
            },
        )
    }
}

/// Parses a TCP segment out of an IPv4 payload.
pub fn parse_tcp(payload: &[u8]) -> (r: Option<TcpSegment>)
    ensures
        match tcp_of(payload@) {
            Some(s) => r is Some && r->0@ == s,
            None => r is None,
        },
{
    if payload.len() < 20 {
        return None;
    }
    let data_offset = (payload[12] / 16) as usize * 4;
    if data_offset < 20 || payload.len() < data_offset {
        return None;
    }
    let body = slice_subrange(payload, data_offset, payload.len());
    let mut data: Vec<u8> = Vec::new();
    data.extend_from_slice(body);
    assert(data@ =~= payload@.skip(data_offset as int));
    Some(
        TcpSegment {
            src_port: get_be16(payload, 0),
            dst_port: get_be16(payload, 2),
            seq: get_be32(payload, 4),
            ack: get_be32(payload, 8),
            flags: payload[13],
            payload: data,
        },
    )
}

/// A TCP segment carrying `csum` as its checksum.
pub open spec fn tcp_with(
    src_port: u16,
    dst_port: u16,
    seq: u32,
    ack: u32,
    flags: u8,
    payload: Seq<u8>,
    csum: u16,
) -> Seq<u8> {
    be16_bytes(src_port) + be16_bytes(dst_port) + be32_bytes(seq) + be32_bytes(ack) + seq![
        0x50u8, flags,
    ] + be16_bytes(8192) + be16_bytes(csum) + seq![0u8, 0u8] + payload
}

/// A TCP segment with its checksum.
pub open spec fn tcp_segment(
    src_port: u16,
    dst_port: u16,
    seq: u32,
    ack: u32,
    flags: u8,
    payload: Seq<u8>,
    dst: Seq<u8>,
) -> Seq<u8> {
    tcp_with(
        src_port,
        dst_port,
        seq,
        ack,
        flags,
        payload,
        checksum_of(pseudo(dst, 6, tcp_with(src_port, dst_port, seq, ack, flags, payload, 0))),
    )
}

fn build_tcp_with(
    src_port: u16,
    dst_port: u16,
    seq: u32,
    ack: u32,
    flags: u8,
    payload: &[u8],
    csum: u16,
) -> (r: Vec<u8>)
    ensures
        r@ == tcp_with(src_port, dst_port, seq, ack, flags, payload@, csum),
{
    let mut seg: Vec<u8> = Vec::new();
    push_be16(&mut seg, src_port);
    push_be16(&mut seg, dst_port);
    push_be32(&mut seg, seq);
    push_be32(&mut seg, ack);
    seg.push(0x50);
    seg.push(flags);
    push_be16(&mut seg, 8192);
    push_be16(&mut seg, csum);
    seg.push(0);
    seg.push(0);
    seg.extend_from_slice(payload);
    assert(seg@ =~= tcp_with(src_port, dst_port, seq, ack, flags, payload@, csum));
    seg
}

/// Builds a TCP segment (header + payload) with a valid checksum.
pub fn build_tcp(
    src_port: u16,
    dst_port: u16,
    seq: u32,
    ack: u32,
    flags: u8,
    payload: &[u8],
    dst_ip: [u8; 4],
) -> (r: Vec<u8>)
    requires
        payload.len() + 54 <= u32::MAX,
    ensures
        r@ == tcp_segment(src_port, dst_port, seq, ack, flags, payload@, dst_ip@),
        r@.len() == 20 + payload@.len(),
{
    let plain = build_tcp_with(src_port, dst_port, seq, ack, flags, payload, 0);
    let csum = pseudo_checksum(dst_ip, IP_PROTO_TCP, &plain);
    build_tcp_with(src_port, dst_port, seq, ack, flags, payload, csum)
}

/// The card after an attempt to send a TCP segment.
pub open spec fn after_tcp(n: Nic, dst_mac: Seq<u8>, dst: Seq<u8>, seg: Seq<u8>) -> Nic {
    after_ipv4(n, dst_mac, dst, 6, seg)
}

/// Sends a raw TCP segment (Ethernet + IPv4 + TCP).
pub fn send_tcp(nic: &mut E1000, dst_mac: [u8; 6], dst_ip: [u8; 4], seg: &[u8]) -> (r: Result<
    (),
    &'static str,
>)
    requires
        seg.len() + 34 <= u32::MAX,
    ensures
        r == outcome(ipv4_error(old(nic)@, seg@.len())),
        final(nic)@ == after_tcp(old(nic)@, dst_mac@, dst_ip@, seg@),
{
    send_ipv4_mac(nic, dst_mac, dst_ip, IP_PROTO_TCP, seg)
}

/// A segment that was built parses back to its fields.
pub proof fn law_tcp_round_trip(
    src_port: u16,
    dst_port: u16,
    seq: u32,
    ack: u32,
    flags: u8,
    payload: Seq<u8>,
    dst: Seq<u8>,
)
    ensures
        tcp_of(tcp_segment(src_port, dst_port, seq, ack, flags, payload, dst)) == Some(
            Segment { src_port, dst_port, seq, ack, flags, payload },
        ),
{
    let t = tcp_segment(src_port, dst_port, seq, ack, flags, payload, dst);
    let (a, b) = (be16_bytes(src_port), be16_bytes(dst_port));
    let (c, d) = (be32_bytes(seq), be32_bytes(ack));
    crate::bytes::lemma_be16_round_trip(src_port);
    crate::bytes::lemma_be16_round_trip(dst_port);
    crate::bytes::lemma_be32_round_trip(seq);
    crate::bytes::lemma_be32_round_trip(ack);
    assert(t.len() == 20 + payload.len());
    assert(t[0] == a[0] && t[1] == a[1] && t[2] == b[0] && t[3] == b[1]);
    assert(t[4] == c[0] && t[5] == c[1] && t[6] == c[2] && t[7] == c[3]);
    assert(t[8] == d[0] && t[9] == d[1] && t[10] == d[2] && t[11] == d[3]);
    assert(t[12] == 0x50 && t[13] == flags);
    assert(t.skip(20) =~= payload);
}

/// The checksum of a segment that was built verifies.
pub proof fn law_tcp_verifies(
    src_port: u16,
    dst_port: u16,
    seq: u32,
    ack: u32,
    flags: u8,
    payload: Seq<u8>,
    dst: Seq<u8>,
)
    requires
        dst.len() == 4,
    ensures
        checksum_of(
            pseudo(dst, 6, tcp_segment(src_port, dst_port, seq, ack, flags, payload, dst)),
        ) == 0,
{
    let plain = tcp_with(src_port, dst_port, seq, ack, flags, payload, 0);
    let zero = pseudo(dst, 6, plain);
    assert(zero[28] == plain[16] && zero[29] == plain[17]);
    law_checksum_verifies(zero, 14);
    let csum = be16_bytes(checksum_of(zero));
    assert(splice(plain, 16, csum) =~= tcp_segment(
        src_port,
        dst_port,
        seq,
        ack,
        flags,
        payload,
        dst,
    ));
    assert(splice(zero, 28, csum) =~= pseudo(dst, 6, splice(plain, 16, csum)));
}

/// A sequence number moved on by `n`, modulo 2^32.
pub open spec fn seq_plus(a: u32, n: int) -> u32 {
    ((a + n) % 0x1_0000_0000) as u32
}

/// The source port of one-shot TCP exchanges.
pub const EXCHANGE_PORT: u16 = 7777;

/// A one-shot TCP client exchange: open the connection, send the request,
/// read the response, and close. No retransmission, no window scaling.
///
/// When `fin_when_echoed` is true, the client sends its FIN as soon as
/// it has received as many bytes as the request has (echo-server
/// semantics: the server only closes after seeing EOF). When false, it
/// waits for the server to close the connection (HTTP/1.0 semantics).
pub struct TcpExchange {
    dst_mac: [u8; 6],
    ip: [u8; 4],
    port: u16,
    our_seq: u32,
    their_seq: Option<u32>,
    got: usize,
    sent_data: bool,
    we_finned: bool,
    fin_when_echoed: bool,
    deadline: u64,
    request: Vec<u8>,
    reply: Vec<u8>,
}

/// The state of an exchange.
pub struct Exchange {
    pub dst_mac: Seq<u8>,
    pub ip: Seq<u8>,
    pub port: u16,
    pub our_seq: u32,
    pub their_seq: Option<u32>,
    /// How many bytes of the reply are filled.
    pub got: nat,
    pub sent_data: bool,
    pub we_finned: bool,
    pub fin_when_echoed: bool,
    pub deadline: u64,
    pub request: Seq<u8>,
    pub reply: Seq<u8>,
}

impl View for TcpExchange {
    type V = Exchange;

    closed spec fn view(&self) -> Exchange {
        Exchange {
            dst_mac: self.dst_mac@,
            ip: self.ip@,
            port: self.port,
            our_seq: self.our_seq,
            their_seq: self.their_seq,
            got: self.got as nat,
            sent_data: self.sent_data,
            we_finned: self.we_finned,
            fin_when_echoed: self.fin_when_echoed,
            deadline: self.deadline,
            request: self.request@,
            reply: self.reply@,
        }
    }
}

/// What to do next in an exchange.
#[derive(Clone, Copy, Debug)]
pub enum ExchangeStep {
    /// Go on at once.
    Again,
    /// Halt until the next interrupt, then go on.
    Wait,
    /// The server closed: so many bytes of the reply are filled.
    Done(usize),
    Failed(&'static str),
}

/// Exchange, card and what to do next.
pub struct Progress {
    pub x: Exchange,
    pub nic: Nic,
    pub step: ExchangeStep,
}

/// The segment that an exchange sends.
pub open spec fn exchange_segment(x: Exchange, ack: u32, flags: u8, data: Seq<u8>) -> Seq<u8> {
    tcp_segment(7777, x.port, x.our_seq, ack, flags, data, x.ip)
}

/// The card after the exchange tried to send a segment.
pub open spec fn exchange_sent(x: Exchange, n: Nic, ack: u32, flags: u8, data: Seq<u8>) -> Nic {
    after_tcp(n, x.dst_mac, x.ip, exchange_segment(x, ack, flags, data))
}

/// Once the handshake is done the request goes out, once.
pub open spec fn with_request(x: Exchange, n: Nic) -> Progress {
    if x.their_seq is Some && !x.sent_data {
        let y = Exchange { sent_data: true, ..x };
        let m = exchange_sent(x, n, seq_plus(x.their_seq->0, 1), 0x18, x.request);
        match ipv4_error(n, 20 + x.request.len()) {
            Some(e) => Progress { x: y, nic: m, step: ExchangeStep::Failed(e) },
            None => Progress {
                x: Exchange { our_seq: seq_plus(x.our_seq, x.request.len() as int), ..y },
                nic: m,
                step: ExchangeStep::Again,
            },
        }
    } else {
        Progress { x, nic: n, step: ExchangeStep::Again }
    }
}

/// What the reply to our SYN brings.
pub open spec fn after_handshake(x: Exchange, n: Nic, s: Segment) -> Progress {
    if s.flags & 0x12 == 0x12 {
        let y = Exchange { their_seq: Some(s.seq), our_seq: s.ack, ..x };
        let m = exchange_sent(y, n, seq_plus(s.seq, 1), 0x10, Seq::empty());
        Progress {
            x: y,
            nic: m,
            step: match ipv4_error(n, 20) {
                Some(e) => ExchangeStep::Failed(e),
                None => ExchangeStep::Again,
            },
        }
    } else {
        Progress { x, nic: n, step: ExchangeStep::Again }
    }
}

/// The smaller of two lengths.
pub open spec fn lesser(a: int, b: int) -> int {
    if a < b {
        a
    } else {
        b
    }
}

/// What a segment with data brings: the part that fits is copied to its
/// place in the reply and acknowledged, and the FIN goes out if it is due.
/// The step is `Wait` unless sending failed.
pub open spec fn after_data(x: Exchange, n: Nic, s: Segment) -> Progress {
    let offset = (s.seq - seq_plus(x.their_seq->0, 1)) % 0x1_0000_0000;
    if s.payload.len() == 0 || offset >= x.reply.len() {
        Progress { x, nic: n, step: ExchangeStep::Wait }
    } else {
        let k = lesser(s.payload.len() as int, x.reply.len() - offset);
        let y = Exchange {
            reply: splice(x.reply, offset, s.payload.take(k)),
            got: if x.got < offset + k {
                (offset + k) as nat
            } else {
                x.got
            },
            ..x
        };
        let ack = seq_plus(s.seq, s.payload.len() as int);
        let m = exchange_sent(y, n, ack, 0x10, Seq::empty());
        match ipv4_error(n, 20) {
            Some(e) => Progress { x: y, nic: m, step: ExchangeStep::Failed(e) },
            None => if y.fin_when_echoed && y.got >= y.request.len() && !y.we_finned {
                let z = Exchange { we_finned: true, ..y };
                Progress {
                    x: z,
                    nic: exchange_sent(z, m, ack, 0x11, Seq::empty()),
                    step: match ipv4_error(m, 20) {
                        Some(e) => ExchangeStep::Failed(e),
                        None => ExchangeStep::Wait,
                    },
                }
            } else {
                Progress { x: y, nic: m, step: ExchangeStep::Wait }
            },
        }
    }
}

/// What is left to do when nothing more is to be had from the ring: give
/// up at the deadline.
pub open spec fn or_timeout(p: Progress, now: u64) -> Progress {
    if p.step == ExchangeStep::Wait && now >= p.x.deadline {
        Progress { step: ExchangeStep::Failed("TCP exchange timeout"), ..p }
    } else {
        p
    }
}

/// What a received segment brings.
pub open spec fn after_segment(x: Exchange, n: Nic, s: Segment, now: u64) -> Progress {
    if s.src_port != x.port {
        Progress { x, nic: n, step: ExchangeStep::Again }
    } else if x.their_seq is None {
        after_handshake(x, n, s)
    } else {
        let p = after_data(x, n, s);
        if p.step is Failed {
            p
        } else if s.flags & 0x01 != 0 {
            Progress { step: ExchangeStep::Done(p.x.got as usize), ..p }
        } else {
            or_timeout(p, now)
        }
    }
}

/// One round of an exchange.
pub open spec fn exchange_round(x: Exchange, n: Nic, now: u64) -> Progress {
    let p = with_request(x, n);
    if p.step is Failed {
        p
    } else if !p.nic.up || p.nic.rx.len() == 0 {
        or_timeout(Progress { step: ExchangeStep::Wait, ..p }, now)
    } else {
        let m = after_receive(p.nic);
        match ipv4_of(p.nic.rx[0]) {
            None => Progress { nic: m, ..p },
            Some(packet) => if packet.proto != 6 {
                Progress { nic: m, ..p }
            } else {
                match tcp_of(packet.payload) {
                    None => Progress { nic: m, ..p },
                    Some(s) => after_segment(p.x, m, s, now),
                }
            },
        }
    }
}

/// Starts a one-shot TCP exchange against `ip:port`, whose MAC address
/// was asked for and is `None` if no answer came: the SYN goes out. The
/// reply is to be read into `reply`.
pub fn tcp_request(
    nic: &mut E1000,
    dst_mac: Option<[u8; 6]>,
    ip: [u8; 4],
    port: u16,
    request: Vec<u8>,
    reply: Vec<u8>,
    timeout_ticks: u64,
    fin_when_echoed: bool,
    now: u64,
) -> (r: Result<TcpExchange, &'static str>)
    requires
        now + timeout_ticks <= u64::MAX,
        request@.len() + 54 <= u32::MAX,
        reply@.len() <= u32::MAX,
    ensures
        match dst_mac {
            None => r is Err && r->Err_0 == "ARP failed" && final(nic)@ == old(nic)@,
            Some(m) => {
                &&& final(nic)@ == after_tcp(
                    old(nic)@,
                    m@,
                    ip@,
                    tcp_segment(7777, port, 0x1234_5678, 0, 0x02, Seq::empty(), ip@),
                )
                &&& match ipv4_error(old(nic)@, 20) {
                    Some(e) => r is Err && r->Err_0 == e,
                    None => r matches Ok(x) && x.wf() && x@ == (Exchange {
                        dst_mac: m@,
                        ip: ip@,
                        port,
                        our_seq: 0x1234_5679,
                        their_seq: None,
                        got: 0,
                        sent_data: false,
                        we_finned: false,
                        fin_when_echoed,
                        deadline: (now + timeout_ticks) as u64,
                        request: request@,
                        reply: reply@,
                    }),
                }
            },
        },
{
    let mac = match dst_mac {
        None => {
            return Err("ARP failed");
        },
        Some(m) => m,
    };
    let none: Vec<u8> = Vec::new();
    assert(none@ =~= Seq::<u8>::empty());
    let seg = build_tcp(EXCHANGE_PORT, port, 0x1234_5678, 0, TCP_SYN, none.as_slice(), ip);
    match send_tcp(nic, mac, ip, seg.as_slice()) {
        Err(e) => {
            return Err(e);
        },
        Ok(_) => {},
    }
    Ok(
        TcpExchange {
            dst_mac: mac,
            ip,
            port,
            our_seq: 0x1234_5679,
            their_seq: None,
            got: 0,
            sent_data: false,
            we_finned: false,
            fin_when_echoed,
            deadline: now + timeout_ticks,
            request,
            reply,
        },
    )
}

impl TcpExchange {
    pub closed spec fn wf(&self) -> bool {
        self.request@.len() + 54 <= u32::MAX && self.reply@.len() <= u32::MAX
    }

    /// The bytes read so far, at their places.
    pub fn reply(&self) -> (r: &Vec<u8>)
        ensures
            r@ == self@.reply,
    {
        &self.reply
    }

    fn send_segment(&self, nic: &mut E1000, ack: u32, flags: u8, data: &Vec<u8>) -> (r: Result<
        (),
        &'static str,
    >)
        requires
            data@.len() + 54 <= u32::MAX,
        ensures
            r == outcome(ipv4_error(old(nic)@, 20 + data@.len())),
            final(nic)@ == exchange_sent(self@, old(nic)@, ack, flags, data@),
    {
        let seg = build_tcp(
            EXCHANGE_PORT,
            self.port,
            self.our_seq,
            ack,
            flags,
            data.as_slice(),
            self.ip,
        );
        send_tcp(nic, self.dst_mac, self.ip, seg.as_slice())
    }

    /// Takes in a segment with data.
    #[verifier::spinoff_prover]
    #[verifier::rlimit(40)]
    fn take_data(&mut self, nic: &mut E1000, s: &TcpSegment) -> (r: Result<(), &'static str>)
        requires
            old(self).wf(),
            old(self)@.their_seq is Some,
            s.payload@.len() <= u32::MAX,
        ensures
            final(self).wf(),
            ({
                let p = after_data(old(self)@, old(nic)@, s@);
                &&& final(self)@ == p.x
                &&& final(nic)@ == p.nic
                &&& match r {
                    Ok(_) => p.step == ExchangeStep::Wait,
                    Err(e) => p.step == ExchangeStep::Failed(e),
                }
            }),
    {
        let their = match self.their_seq {
            Some(t) => t,
            None => 0,
        };
        if s.payload.len() == 0 {
            return Ok(());
        }
        let none: Vec<u8> = Vec::new();
        assert(none@ =~= Seq::<u8>::empty());
        let base = their.wrapping_add(1);
        assert(base == seq_plus(their, 1));
        let offset = s.seq.wrapping_sub(base) as usize;
        assert(offset == (s.seq - base) % 0x1_0000_0000);
        if offset < self.reply.len() {
            let room = self.reply.len() - offset;
            let n: usize = if s.payload.len() < room { s.payload.len() } else { room };
            let part = slice_subrange(s.payload.as_slice(), 0, n);
            assert(part@ =~= s.payload@.take(n as int));
            copy_into(&mut self.reply, offset, part);
            if self.got < offset + n {
                self.got = offset + n;
            }
            let ack = s.seq.wrapping_add(s.payload.len() as u32);
            assert(ack == seq_plus(s.seq, s.payload@.len() as int));
            match self.send_segment(nic, ack, TCP_ACK, &none) {
                Err(e) => {
                    return Err(e);
                },
                Ok(_) => {},
            }
            if self.fin_when_echoed && self.got >= self.request.len() && !self.we_finned {
                self.we_finned = true;
                match self.send_segment(nic, ack, 0x11, &none) {
                    Err(e) => {
                        return Err(e);
                    },
                    Ok(_) => {},
                }
            }
        }
        Ok(())
    }

    /// Sends the request once the handshake is done.
    #[verifier::spinoff_prover]
    fn send_request(&mut self, nic: &mut E1000) -> (r: Result<(), &'static str>)
        requires
            old(self).wf(),
        ensures
            final(self).wf(),
            ({
                let p = with_request(old(self)@, old(nic)@);
                &&& final(self)@ == p.x
                &&& final(nic)@ == p.nic
                &&& match r {
                    Ok(_) => p.step == ExchangeStep::Again,
                    Err(e) => p.step == ExchangeStep::Failed(e),
                }
            }),
    {
        if let Some(their) = self.their_seq {
            if !self.sent_data {
                let ack = their.wrapping_add(1);
                assert(ack == seq_plus(their, 1));
                let sent = self.send_segment(nic, ack, 0x18, &self.request);
                self.sent_data = true;
                match sent {
                    Err(e) => {
                        return Err(e);
                    },
                    Ok(_) => {},
                }
                self.our_seq = self.our_seq.wrapping_add(self.request.len() as u32);
            }
        }
        Ok(())
    }

    /// Takes in the reply to our SYN.
    fn take_handshake(&mut self, nic: &mut E1000, s: &TcpSegment) -> (r: ExchangeStep)
        requires
            old(self).wf(),
        ensures
            final(self).wf(),
            ({
                let p = after_handshake(old(self)@, old(nic)@, s@);
                &&& final(self)@ == p.x
                &&& final(nic)@ == p.nic
                &&& r == p.step
            }),
    {
        if s.flags & 0x12 == 0x12 {
            self.their_seq = Some(s.seq);
            self.our_seq = s.ack;
            let none: Vec<u8> = Vec::new();
            assert(none@ =~= Seq::<u8>::empty());
            let ack = s.seq.wrapping_add(1);
            assert(ack == seq_plus(s.seq, 1));
            match self.send_segment(nic, ack, TCP_ACK, &none) {
                Err(e) => {
                    return ExchangeStep::Failed(e);
                },
                Ok(_) => {},
            }
        }
        ExchangeStep::Again
    }

    /// Takes in a segment.
    fn take_segment(&mut self, nic: &mut E1000, s: &TcpSegment, now: u64) -> (r: ExchangeStep)
        requires
            old(self).wf(),
            s.payload@.len() <= u32::MAX,
        ensures
            final(self).wf(),
            ({
                let p = after_segment(old(self)@, old(nic)@, s@, now);
                &&& final(self)@ == p.x
                &&& final(nic)@ == p.nic
                &&& r == p.step
            }),
    {
        if s.src_port != self.port {
            return ExchangeStep::Again;
        }
        if self.their_seq.is_none() {
            return self.take_handshake(nic, s);
        }
        match self.take_data(nic, s) {
            Err(e) => {
                return ExchangeStep::Failed(e);
            },
            Ok(_) => {},
        }
        if s.flags & TCP_FIN != 0 {
            return ExchangeStep::Done(self.got);
        }
        if now >= self.deadline {
            return ExchangeStep::Failed("TCP exchange timeout");
        }
        ExchangeStep::Wait
    }

    /// One round of the exchange at time `now`.
    pub fn poll(&mut self, nic: &mut E1000, now: u64) -> (r: ExchangeStep)
        requires
            old(self).wf(),
            old(nic)@.rx.len() > 0 ==> old(nic)@.rx[0].len() <= u32::MAX,
        ensures
            final(self).wf(),
            ({
                let p = exchange_round(old(self)@, old(nic)@, now);
                &&& final(self)@ == p.x
                &&& final(nic)@ == p.nic
                &&& r == p.step
            }),
    {
        match self.send_request(nic) {
            Err(e) => {
                return ExchangeStep::Failed(e);
            },
            Ok(_) => {},
        }
        match poll_rx(nic) {
            None => {
                if now >= self.deadline {
                    return ExchangeStep::Failed("TCP exchange timeout");
                }
                ExchangeStep::Wait
            },
            Some(frame) => match parse_ipv4(frame.as_slice()) {
                None => ExchangeStep::Again,
                Some((_, _, proto, payload)) => {
                    if proto != IP_PROTO_TCP {
                        return ExchangeStep::Again;
                    }
                    match parse_tcp(payload) {
                        None => ExchangeStep::Again,
                        Some(s) => self.take_segment(nic, &s, now),
                    }
                },
            },
        }
    }
}

/// The request goes out exactly once, and only after the handshake.
pub proof fn law_request_sent_once(x: Exchange, n: Nic)
    ensures
        with_request(x, n).x.sent_data == (x.sent_data || x.their_seq is Some),
        x.sent_data ==> with_request(x, n).x == x && with_request(x, n).nic == n,
        x.their_seq is None ==> with_request(x, n).x == x && with_request(x, n).nic == n,
{
}

/// Data in order lands in the reply where it belongs and nothing else in
/// the reply changes.
pub proof fn law_data_lands_in_place(x: Exchange, n: Nic, s: Segment, i: int)
    requires
        x.their_seq is Some,
        s.payload.len() > 0,
        0 <= i < x.reply.len(),
    ensures
        ({
            let offset = (s.seq - seq_plus(x.their_seq->0, 1)) % 0x1_0000_0000;
            after_data(x, n, s).x.reply[i] == if offset <= i < offset + s.payload.len() {
                s.payload[i - offset]
            } else {
                x.reply[i]
            }
        }),
{
}

// ---------------------------------------------------------------------
// UDP echo
// ---------------------------------------------------------------------

/// The source port of UDP echo requests.
pub const ECHO_PORT: u16 = 5555;

/// How far a UDP echo has come.
#[derive(Clone, Copy, Debug)]
pub enum EchoStep {
    /// So many bytes of the reply were copied.
    Done(usize),
    Failed(&'static str),
    /// Nothing yet: halt, then poll again.
    Wait,
}

/// Sends `payload` to the gateway's `port`; its MAC address was asked for
/// and is `None` if no answer came. The echo is then polled for until the
/// deadline that is returned.
pub fn udp_echo(
    nic: &mut E1000,
    gateway_mac: Option<[u8; 6]>,
    port: u16,
    payload: &[u8],
    timeout_ticks: u64,
    now: u64,
) -> (r: Result<u64, &'static str>)
    requires
        now + timeout_ticks <= u64::MAX,
        payload.len() + 42 <= u32::MAX,
    ensures
        match gateway_mac {
            None => r == Err::<u64, &'static str>("ARP failed") && final(nic)@ == old(nic)@,
            Some(m) => {
                &&& final(nic)@ == after_udp(old(nic)@, m@, GATEWAY_IP@, port, 5555, payload@)
                &&& r == match ipv4_error(old(nic)@, 8 + payload@.len()) {
                    Some(e) => Err::<u64, &'static str>(e),
                    None => Ok((now + timeout_ticks) as u64),
                }
            },
        },
{
    match send_udp(nic, gateway_mac, GATEWAY_IP, port, ECHO_PORT, payload) {
        Err(e) => Err(e),
        Ok(_) => Ok(now + timeout_ticks),
    }
}

/// One look at the receive ring for the echo from the gateway's `port`;
/// as much of it as fits is copied into `reply`.
pub fn udp_echo_poll(
    nic: &mut E1000,
    port: u16,
    reply: &mut Vec<u8>,
    deadline: u64,
    now: u64,
) -> (r: EchoStep)
    ensures
        ({
            let (got, n) = udp_polled(old(nic)@, 5555);
            &&& final(nic)@ == n
            &&& if got is Some && got->0.src_port == port {
                let k = lesser(got->0.payload.len() as int, old(reply)@.len() as int);
                &&& r == EchoStep::Done(k as usize)
                &&& final(reply)@ == splice(old(reply)@, 0, got->0.payload.take(k))
            } else {
                &&& final(reply)@ == old(reply)@
                &&& r == if now >= deadline {
                    EchoStep::Failed("UDP echo timeout")
                } else {
                    EchoStep::Wait
                }
            }
        }),
{
    if let Some(pkt) = poll_udp(nic, ECHO_PORT) {
        if pkt.src_port == port {
            let n: usize = if pkt.payload.len() < reply.len() {
                pkt.payload.len()
            } else {
                reply.len()
            };
            let part = slice_subrange(pkt.payload.as_slice(), 0, n);
            assert(part@ =~= pkt.payload@.take(n as int));
            copy_into(reply, 0, part);
            return EchoStep::Done(n);
        }
    }
    if now >= deadline {
        return EchoStep::Failed("UDP echo timeout");
    }
    EchoStep::Wait
}

// ---------------------------------------------------------------------
// DNS
// ---------------------------------------------------------------------

/// The source port of DNS queries.
pub const DNS_PORT: u16 = 5353;

/// The labels of a name, each behind its length; `None` if one is longer
/// than 63 bytes.
pub open spec fn dns_labels(labels: Seq<Seq<char>>) -> Option<Seq<u8>>
    decreases labels.len(),
{
    if labels.len() == 0 {
        Some(Seq::empty())
    } else {
        let l = encode_utf8(labels.last());
        match dns_labels(labels.drop_last()) {
            None => None,
            Some(b) => if l.len() > 63 {
                None
            } else {
                Some(b + seq![l.len() as u8] + l)
            },
        }
    }
}

/// A DNS query for the A record of `name`.
pub open spec fn dns_query_of(name: Seq<char>) -> Option<Seq<u8>> {
    match dns_labels(pieces(name, '.')) {
        None => None,
        Some(b) => Some(
            seq![0xBEu8, 0xEFu8, 1u8, 0u8, 0u8, 1u8, 0u8, 0u8, 0u8, 0u8, 0u8, 0u8] + b + seq![
                0u8, 0u8, 1u8, 0u8, 1u8,
            ],
        ),
    }
}

proof fn lemma_labels_fault_persists(labels: Seq<Seq<char>>, i: int)
    requires
        0 <= i <= labels.len(),
        dns_labels(labels.take(i)) is None,
    ensures
        dns_labels(labels) is None,
    decreases labels.len() - i,
{
    if i < labels.len() {
        assert(labels.take(i + 1).drop_last() =~= labels.take(i));
        lemma_labels_fault_persists(labels, i + 1);
    } else {
        assert(labels.take(i) =~= labels);
    }
}

/// Builds the DNS query for `name`; `None` if one of its labels is too
/// long.
pub fn dns_query(name: &str) -> (r: Option<Vec<u8>>)
    ensures
        match dns_query_of(name@) {
            Some(q) => r is Some && r->0@ == q,
            None => r is None,
        },
{
    let chars = chars_of(name);
    let labels = split_at_each(&chars, '.');
    let ghost all = pieces(name@, '.');
    let mut query: Vec<u8> = Vec::new();
    query.extend_from_slice(&[0xBEu8, 0xEF, 1, 0, 0, 1, 0, 0, 0, 0, 0, 0]);
    let ghost head = query@;
    let mut i: usize = 0;
    assert(all.take(0) =~= Seq::<Seq<char>>::empty());
    while i < labels.len()
        invariant
            i <= labels@.len(),
            all == views(labels@),
            all == pieces(name@, '.'),
            dns_labels(all.take(i as int)) is Some,
            query@ =~= head + dns_labels(all.take(i as int))->0,
        decreases labels@.len() - i,
    {
        let text = string_of(&labels[i]);
        let label = text.as_str().as_bytes();
        let ghost next = all.take(i + 1);
        assert(next.drop_last() =~= all.take(i as int));
        assert(next.last() == labels@[i as int]@);
        if label.len() > 63 {
            proof {
                lemma_labels_fault_persists(all, i + 1);
            }
            return None;
        }
        query.push(label.len() as u8);
        query.extend_from_slice(label);
        i += 1;
    }
    assert(all.take(i as int) =~= all);
    query.extend_from_slice(&[0u8, 0, 1, 0, 1]);
    assert(query@ =~= dns_query_of(name@)->0);
    Some(query)
}

/// The position behind the name at `pos`.
pub open spec fn behind_name(d: Seq<u8>, pos: int) -> Option<int>
    decreases (if pos < d.len() { d.len() - pos } else { 0 }),
{
    if pos < 0 || pos >= d.len() {
        None
    } else if d[pos] == 0 {
        Some(pos + 1)
    } else if d[pos] & 0xC0 == 0xC0 {
        Some(pos + 2)
    } else {
        behind_name(d, pos + 1 + d[pos])
    }
}

/// The first A record among the `n` answers from `pos` on.
pub open spec fn first_a(d: Seq<u8>, pos: int, n: nat) -> Option<Seq<u8>>
    decreases n,
{
    if n == 0 {
        None
    } else {
        match behind_name(d, pos) {
            None => None,
            Some(p) => if p + 10 > d.len() {
                None
            } else {
                let rdlen = be16(d, p + 8) as int;
                if be16(d, p) == 1 && rdlen == 4 && p + 14 <= d.len() {
                    Some(d.subrange(p + 10, p + 14))
                } else {
                    first_a(d, p + 10 + rdlen, (n - 1) as nat)
                }
            },
        }
    }
}

/// The address that a DNS reply gives.
pub open spec fn dns_answer(d: Seq<u8>) -> Option<Seq<u8>> {
    if d.len() < 12 || be16(d, 6) == 0 {
        None
    } else {
        match behind_name(d, 12) {
            None => None,
            Some(p) => first_a(d, p + 4, be16(d, 6) as nat),
        }
    }
}

fn skip_name(reply: &[u8], start: usize) -> (r: Option<usize>)
    requires
        reply.len() <= 0x7FFF_FFFF,
    ensures
        match behind_name(reply@, start as int) {
            Some(p) => r is Some && r->0 == p && p <= reply@.len() + 1,
            None => r is None,
        },
{
    let mut pos: usize = start;
    loop
        invariant
            reply.len() <= 0x7FFF_FFFF,
            behind_name(reply@, start as int) == behind_name(reply@, pos as int),
        decreases reply@.len() + 256 - pos,
    {
        if pos >= reply.len() {
            return None;
        }
        let len = reply[pos];
        if len == 0 {
            return Some(pos + 1);
        }
        if len & 0xC0 == 0xC0 {
            return Some(pos + 2);
        }
        pos = pos + 1 + len as usize;
    }
}

/// Extracts the first A record from a DNS reply.
pub fn parse_dns_a(reply: &[u8]) -> (r: Option<[u8; 4]>)
    requires
        reply.len() <= 0x7FFF_FFFF,
    ensures
        match dns_answer(reply@) {
            Some(a) => r is Some && r->0@ == a,
            None => r is None,
        },
{
    if reply.len() < 12 {
        return None;
    }
    let ancount = get_be16(reply, 6);
    if ancount == 0 {
        return None;
    }
    let mut pos: usize = match skip_name(reply, 12) {
        None => {
            return None;
        },
        Some(p) => p + 4,
    };
    let mut left: u16 = ancount;
    while left > 0
        invariant
            reply.len() <= 0x7FFF_FFFF,
            reply.len() == reply@.len(),
            pos <= reply@.len() + 0x1_0010,
            dns_answer(reply@) == first_a(reply@, pos as int, left as nat),
        decreases left,
    {
        let p = match skip_name(reply, pos) {
            None => {
                return None;
            },
            Some(p) => p,
        };
        if p + 10 > reply.len() {
            return None;
        }
        let rtype = get_be16(reply, p);
        let rdlen = get_be16(reply, p + 8) as usize;
        if rtype == 1 && rdlen == 4 && p + 14 <= reply.len() {
            return Some(ip_at(reply, p + 10));
        }
        pos = p + 10 + rdlen;
        left = left - 1;
    }
    None
}

/// How far a DNS lookup has come.
pub enum DnsStep {
    Found([u8; 4]),
    Failed,
    /// Nothing yet: halt, then poll again, and give up at `deadline`.
    Wait { deadline: u64 },
}

/// Starts resolving `name` to an IPv4 address via the user-net DNS
/// forwarder, whose MAC address was asked for and is `None` if no answer
/// came.
pub fn dns_lookup(
    nic: &mut E1000,
    forwarder_mac: Option<[u8; 6]>,
    name: &str,
    timeout_ticks: u64,
    now: u64,
) -> (r: DnsStep)
    requires
        now + timeout_ticks <= u64::MAX,
        dns_query_of(name@) is Some ==> dns_query_of(name@)->0.len() + 42 <= u32::MAX,
    ensures
        match (dns_query_of(name@), forwarder_mac) {
            (Some(q), Some(m)) => {
                &&& final(nic)@ == after_udp(old(nic)@, m@, DNS_IP@, 53, 5353, q)
                &&& if ipv4_error(old(nic)@, 8 + q.len()) is Some {
                    r is Failed
                } else {
                    r == DnsStep::Wait { deadline: (now + timeout_ticks) as u64 }
                }
            },
            _ => r is Failed && final(nic)@ == old(nic)@,
        },
{
    let query = match dns_query(name) {
        None => {
            return DnsStep::Failed;
        },
        Some(q) => q,
    };
    match send_udp(nic, forwarder_mac, DNS_IP, 53, DNS_PORT, query.as_slice()) {
        Err(_) => DnsStep::Failed,
        Ok(_) => DnsStep::Wait { deadline: now + timeout_ticks },
    }
}

/// One look at the receive ring for the DNS reply.
pub fn dns_poll(nic: &mut E1000, deadline: u64, now: u64) -> (r: DnsStep)
    requires
        forall|i: int|
            0 <= i < old(nic)@.rx.len() ==> (#[trigger] old(nic)@.rx[i]).len() <= 0x7FFF_FFFF,
    ensures
        ({
            let (got, n) = udp_polled(old(nic)@, 5353);
            &&& final(nic)@ == n
            &&& if got is Some && got->0.src_port == 53 {
                match dns_answer(got->0.payload) {
                    Some(a) => r matches DnsStep::Found(ip) && ip@ == a,
                    None => r is Failed,
                }
            } else if now >= deadline {
                r is Failed
            } else {
                r == DnsStep::Wait { deadline }
            }
        }),
{
    proof {
        lemma_first_udp(old(nic)@.rx, DNS_PORT, 0);
    }
    if let Some(pkt) = poll_udp(nic, DNS_PORT) {
        if pkt.src_port == 53 {
            return match parse_dns_a(pkt.payload.as_slice()) {
                Some(ip) => DnsStep::Found(ip),
                None => DnsStep::Failed,
            };
        }
    }
    if now >= deadline {
        return DnsStep::Failed;
    }
    DnsStep::Wait { deadline }
}

proof fn lemma_first_udp(rx: Seq<Seq<u8>>, port: u16, i: int)
    requires
        0 <= i <= rx.len(),
    ensures
        i <= first_udp(rx, port, i) <= rx.len(),
        first_udp(rx, port, i) < rx.len() ==> udp_of(rx[first_udp(rx, port, i)], port) is Some,
    decreases rx.len() - i,
{
    if i < rx.len() && udp_of(rx[i], port) is None {
        lemma_first_udp(rx, port, i + 1);
    }
}

// ---------------------------------------------------------------------
// HTTP
// ---------------------------------------------------------------------

/// The text of an HTTP/1.0 GET request.
pub open spec fn http_request_text(ip: Seq<u8>, path: Seq<char>) -> Seq<char> {
    "GET "@ + path + " HTTP/1.0\r\nHost: "@ + dec(ip[0] as nat) + "."@ + dec(ip[1] as nat) + "."@
        + dec(ip[2] as nat) + "."@ + dec(ip[3] as nat) + "\r\n\r\n"@
}

/// Builds the HTTP/1.0 GET request for `path` on the host `ip`; the caller
/// hands it to `tcp_request` and lets the server close the connection.
pub fn http_get(ip: [u8; 4], path: &str) -> (r: Vec<u8>)
    ensures
        r@ == encode_utf8(http_request_text(ip@, path@)),
{
    let mut text: Vec<char> = Vec::new();
    push_str(&mut text, "GET ");
    push_str(&mut text, path);
    push_str(&mut text, " HTTP/1.0\r\nHost: ");
    push_dec(&mut text, ip[0] as u64);
    push_str(&mut text, ".");
    push_dec(&mut text, ip[1] as u64);
    push_str(&mut text, ".");
    push_dec(&mut text, ip[2] as u64);
    push_str(&mut text, ".");
    push_dec(&mut text, ip[3] as u64);
    push_str(&mut text, "\r\n\r\n");
    assert(text@ =~= http_request_text(ip@, path@));
    let whole = string_of(&text);
    let mut request: Vec<u8> = Vec::new();
    request.extend_from_slice(whole.as_str().as_bytes());
    assert(request@ =~= encode_utf8(http_request_text(ip@, path@)));
    request
}

/// Whether the header terminator stands at `i`.
pub open spec fn terminator_at(d: Seq<u8>, i: int) -> bool {
    0 <= i && i + 4 <= d.len() && d[i] == 13 && d[i + 1] == 10 && d[i + 2] == 13 && d[i + 3] == 10
}

/// Splits an HTTP response into its body (everything after the header
/// terminator; the whole response if there is none).
pub fn http_body(response: &[u8]) -> (r: &[u8])
    ensures
        (exists|i: int| terminator_at(response@, i)) ==> exists|i: int|
            terminator_at(response@, i) && (forall|j: int|
                terminator_at(response@, j) ==> i <= j) && r@ == response@.skip(i + 4),
        (forall|i: int| !terminator_at(response@, i)) ==> r@ == response@,
{
    let mut i: usize = 0;
    let n = response.len();
    while i < n && n - i >= 4
        invariant
            n == response.len(),
            i <= n,
            forall|j: int| 0 <= j < i ==> !terminator_at(response@, j),
        decreases n - i,
    {
        if response[i] == 13 && response[i + 1] == 10 && response[i + 2] == 13 && response[i + 3]
            == 10 {
            let r = slice_subrange(response, i + 4, n);
            assert(terminator_at(response@, i as int));
            assert(r@ =~= response@.skip(i + 4));
            return r;
        }
        i += 1;
    }
    assert forall|j: int| !terminator_at(response@, j) by {}
    response
}

} // verus!
