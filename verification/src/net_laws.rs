//! What the packets of `net` look like on the wire, byte by byte.

use crate::bytes::{be16_bytes, be32_bytes};
use crate::net::{
    arp_reply_mac, arp_request, checksum_of, dns_answer, behind_name, dns_labels, dns_query_of, dotted_quad, first_a, folded,
    ip_header, ipv4_frame, law_ipv4_header_verifies, law_tcp_verifies, law_udp_verifies, low16, pseudo, tcp_segment,
    udp_datagram, word, word_sum, OUR_IP,
};
use crate::text::{
    dec, is_digit, law_dec_parses_back, law_dec_value, lemma_pieces_prefix, lemma_pieces_run, lemma_pieces_sep, pieces,
};
use vstd::prelude::*;
use vstd::utf8::encode_utf8;

verus! {

// ---------------------------------------------------------------------
// Checksums
// ---------------------------------------------------------------------

/// The sum of the 16-bit words of the data: a byte at an even place counts
/// 256 times.
pub open spec fn byte_sum(d: Seq<u8>) -> int
    decreases d.len(),
{
    if d.len() == 0 {
        0
    } else {
        byte_sum(d.drop_last()) + d.last() * (if d.len() % 2 == 1 {
            256int
        } else {
            1int
        })
    }
}

proof fn lemma_word_sum(d: Seq<u8>, j: nat)
    requires
        2 * j <= d.len(),
    ensures
        word_sum(d, j) == byte_sum(d.take(2 * j as int)),
    decreases j,
{
    if j > 0 {
        lemma_word_sum(d, (j - 1) as nat);
        let k = 2 * j as int;
        let t = d.take(k);
        assert(t.drop_last() =~= d.take(k - 1));
        assert(d.take(k - 1).drop_last() =~= d.take(k - 2));
        assert(t.last() == d[k - 1]);
        assert(d.take(k - 1).last() == d[k - 2]);
        reveal_with_fuel(byte_sum, 3);
    }
}

proof fn lemma_sums(d: Seq<u8>)
    ensures
        word_sum(d, (d.len() + 1) / 2) == byte_sum(d),
{
    let j = d.len() / 2;
    lemma_word_sum(d, j);
    if d.len() % 2 == 0 {
        assert(d.take(2 * j as int) =~= d);
    } else {
        assert(d.drop_last() =~= d.take(2 * j as int));
        assert(word_sum(d, j + 1) == word_sum(d, j) + word(d, j as int));
    }
}

proof fn lemma_sum_append(a: Seq<u8>, b: Seq<u8>)
    requires
        a.len() % 2 == 0,
    ensures
        byte_sum(a + b) == byte_sum(a) + byte_sum(b),
    decreases b.len(),
{
    if b.len() == 0 {
        assert(a + b =~= a);
    } else {
        assert((a + b).drop_last() =~= a + b.drop_last());
        lemma_sum_append(a, b.drop_last());
    }
}

/// The checksum is the one's complement of the sum of the words: together
/// they are a multiple of 0xFFFF. It is 0xFFFF for a sum of zero alone.
pub proof fn law_checksum_complements(d: Seq<u8>)
    ensures
        (byte_sum(d) + checksum_of(d)) % 0xFFFF == 0,
        checksum_of(d) == 0xFFFF <==> byte_sum(d) == 0,
{
    lemma_sums(d);
    let s = byte_sum(d) as int;
    if s > 0 {
        let q = (s - 1) / 0xFFFF;
        assert(s + (0xFFFF - folded(s as nat)) == 0xFFFF * (q + 1));
    }
}

proof fn lemma_verified_sum(d: Seq<u8>)
    requires
        checksum_of(d) == 0,
    ensures
        byte_sum(d) % 0xFFFF == 0,
{
    law_checksum_complements(d);
}

proof fn lemma_pseudo_sum(dst: Seq<u8>, proto: u8, body: Seq<u8>)
    requires
        dst.len() == 4,
    ensures
        byte_sum(pseudo(dst, proto, body)) == 0x0A00 + 0x020F + byte_sum(dst) + proto + body.len() % 0x1_0000
            + byte_sum(body),
{
    reveal(low16);
    let ip = OUR_IP@;
    let mid = seq![0u8, proto];
    let len = be16_bytes(low16(body.len()));
    lemma_sum_append(ip + dst + mid + len, body);
    lemma_sum_append(ip + dst + mid, len);
    lemma_sum_append(ip + dst, mid);
    lemma_sum_append(ip, dst);
    assert(byte_sum(ip) == 0x0A00 + 0x020F) by {
        reveal_with_fuel(byte_sum, 5);
        assert(ip.drop_last() =~= seq![10u8, 0u8, 2u8]);
        assert(seq![10u8, 0u8, 2u8].drop_last() =~= seq![10u8, 0u8]);
        assert(seq![10u8, 0u8].drop_last() =~= seq![10u8]);
        assert(seq![10u8].drop_last() =~= Seq::<u8>::empty());
    }
    assert(byte_sum(mid) == proto) by {
        reveal_with_fuel(byte_sum, 3);
        assert(mid.drop_last() =~= seq![0u8]);
        assert(seq![0u8].drop_last() =~= Seq::<u8>::empty());
    }
    assert(byte_sum(len) == body.len() % 0x1_0000) by {
        reveal_with_fuel(byte_sum, 3);
        let v = low16(body.len());
        assert(len.drop_last() =~= seq![(v / 0x100) as u8]);
        assert(seq![(v / 0x100) as u8].drop_last() =~= Seq::<u8>::empty());
    }
}

/// A peer that sums the words of the two addresses, the protocol number 6,
/// the segment's length and the segment itself gets 0xFFFF, carries folded
/// in.
pub proof fn law_tcp_segment_sums(
    src_port: u16,
    dst_port: u16,
    seq: u32,
    ack: u32,
    flags: u8,
    payload: Seq<u8>,
    dst: Seq<u8>,
)
    requires
        dst.len() == 4,
    ensures
        ({
            let t = tcp_segment(src_port, dst_port, seq, ack, flags, payload, dst);
            (byte_sum(seq![10u8, 0u8, 2u8, 15u8]) + byte_sum(dst) + 6 + t.len() % 0x1_0000 + byte_sum(t)) % 0xFFFF
                == 0
        }),
{
    let t = tcp_segment(src_port, dst_port, seq, ack, flags, payload, dst);
    law_tcp_verifies(src_port, dst_port, seq, ack, flags, payload, dst);
    lemma_verified_sum(pseudo(dst, 6, t));
    lemma_pseudo_sum(dst, 6, t);
    lemma_our_sum();
}

/// A peer that sums the words of the two addresses, the protocol number 17,
/// the datagram's length and the datagram itself gets 0xFFFF, carries
/// folded in.
pub proof fn law_udp_datagram_sums(dst: Seq<u8>, dst_port: u16, src_port: u16, payload: Seq<u8>)
    requires
        dst.len() == 4,
    ensures
        ({
            let u = udp_datagram(dst, dst_port, src_port, payload);
            (byte_sum(seq![10u8, 0u8, 2u8, 15u8]) + byte_sum(dst) + 17 + u.len() % 0x1_0000 + byte_sum(u)) % 0xFFFF
                == 0
        }),
{
    let u = udp_datagram(dst, dst_port, src_port, payload);
    law_udp_verifies(dst, dst_port, src_port, payload);
    lemma_verified_sum(pseudo(dst, 17, u));
    lemma_pseudo_sum(dst, 17, u);
    lemma_our_sum();
}

proof fn lemma_our_sum()
    ensures
        byte_sum(seq![10u8, 0u8, 2u8, 15u8]) == 0x0A00 + 0x020F,
{
    reveal_with_fuel(byte_sum, 5);
    assert(seq![10u8, 0u8, 2u8, 15u8].drop_last() =~= seq![10u8, 0u8, 2u8]);
    assert(seq![10u8, 0u8, 2u8].drop_last() =~= seq![10u8, 0u8]);
    assert(seq![10u8, 0u8].drop_last() =~= seq![10u8]);
    assert(seq![10u8].drop_last() =~= Seq::<u8>::empty());
}

// ---------------------------------------------------------------------
// Layouts
// ---------------------------------------------------------------------

/// The number in the two bytes at `i`, high byte first.
pub open spec fn number16(d: Seq<u8>, i: int) -> int {
    d[i] * 256 + d[i + 1]
}

/// The number in the four bytes at `i`, high byte first.
pub open spec fn number32(d: Seq<u8>, i: int) -> int {
    number16(d, i) * 65536 + number16(d, i + 2)
}

/// An IPv4 frame: the Ethernet addresses with the destination first and the
/// type 0x0800, then a 20-byte header of version 4 without options or
/// fragments that names the length, a time to live of 64, the protocol and
/// the addresses, and whose words sum to 0xFFFF, then the payload.
#[verifier::spinoff_prover]
pub proof fn law_ipv4_frame_layout(
    src_mac: Seq<u8>,
    dst_mac: Seq<u8>,
    dst: Seq<u8>,
    proto: u8,
    payload: Seq<u8>,
)
    requires
        src_mac.len() == 6,
        dst_mac.len() == 6,
        dst.len() == 4,
    ensures
        ({
            let f = ipv4_frame(src_mac, dst_mac, dst, proto, payload);
            &&& f.len() == 34 + payload.len()
            &&& f.subrange(0, 6) == dst_mac
            &&& f.subrange(6, 12) == src_mac
            &&& number16(f, 12) == 0x0800
            &&& f[14] == 0x45
            &&& number16(f, 16) == (20 + payload.len()) % 0x1_0000
            &&& number16(f, 18) == 0 && number16(f, 20) == 0
            &&& f[22] == 64
            &&& f[23] == proto
            &&& f.subrange(26, 30) == seq![10u8, 0u8, 2u8, 15u8]
            &&& f.subrange(30, 34) == dst
            &&& f.subrange(34, f.len() as int) == payload
            &&& byte_sum(f.subrange(14, 34)) % 0xFFFF == 0
        }),
{
    reveal(low16);
    let f = ipv4_frame(src_mac, dst_mac, dst, proto, payload);
    let csum = checksum_of(ip_header(proto, dst, payload.len(), 0));
    let h = ip_header(proto, dst, payload.len(), csum);
    law_ipv4_header_verifies(proto, dst, payload.len());
    lemma_verified_sum(h);
    assert(f.subrange(14, 34) =~= h);
    assert(f.subrange(0, 6) =~= dst_mac);
    assert(f.subrange(6, 12) =~= src_mac);
    assert(f.subrange(26, 30) =~= seq![10u8, 0u8, 2u8, 15u8]);
    assert(f.subrange(30, 34) =~= dst);
    assert(f.subrange(34, f.len() as int) =~= payload);
    let len = be16_bytes(low16(20 + payload.len()));
    assert(f[16] == len[0] && f[17] == len[1]);
}

/// A TCP segment: ports, sequence and acknowledgment number, a header of
/// five words, the flags, a window of 8192, no urgent data, the payload.
pub proof fn law_tcp_segment_layout(
    src_port: u16,
    dst_port: u16,
    seq: u32,
    ack: u32,
    flags: u8,
    payload: Seq<u8>,
    dst: Seq<u8>,
)
    ensures
        ({
            let t = tcp_segment(src_port, dst_port, seq, ack, flags, payload, dst);
            &&& t.len() == 20 + payload.len()
            &&& number16(t, 0) == src_port
            &&& number16(t, 2) == dst_port
            &&& number32(t, 4) == seq
            &&& number32(t, 8) == ack
            &&& t[12] == 0x50
            &&& t[13] == flags
            &&& number16(t, 14) == 8192
            &&& number16(t, 18) == 0
            &&& t.subrange(20, t.len() as int) == payload
        }),
{
    let t = tcp_segment(src_port, dst_port, seq, ack, flags, payload, dst);
    let (a, b) = (be16_bytes(src_port), be16_bytes(dst_port));
    let (c, d) = (be32_bytes(seq), be32_bytes(ack));
    assert(t[0] == a[0] && t[1] == a[1] && t[2] == b[0] && t[3] == b[1]);
    assert(t[4] == c[0] && t[5] == c[1] && t[6] == c[2] && t[7] == c[3]);
    assert(t[8] == d[0] && t[9] == d[1] && t[10] == d[2] && t[11] == d[3]);
    assert(t[14] == 32 && t[15] == 0);
    assert(t.subrange(20, t.len() as int) =~= payload);
}

/// A UDP datagram: source port, destination port, length, the payload.
pub proof fn law_udp_datagram_layout(dst: Seq<u8>, dst_port: u16, src_port: u16, payload: Seq<u8>)
    ensures
        ({
            let u = udp_datagram(dst, dst_port, src_port, payload);
            &&& u.len() == 8 + payload.len()
            &&& number16(u, 0) == src_port
            &&& number16(u, 2) == dst_port
            &&& number16(u, 4) == u.len() % 0x1_0000
            &&& u.subrange(8, u.len() as int) == payload
        }),
{
    reveal(low16);
    let u = udp_datagram(dst, dst_port, src_port, payload);
    let (a, b) = (be16_bytes(src_port), be16_bytes(dst_port));
    let c = be16_bytes(low16(8 + payload.len()));
    assert(u[0] == a[0] && u[1] == a[1] && u[2] == b[0] && u[3] == b[1]);
    assert(u[4] == c[0] && u[5] == c[1]);
    assert(u.subrange(8, u.len() as int) =~= payload);
}

/// An ARP request is broadcast, of type 0x0806, asks for IPv4 over Ethernet
/// with operation 1, and names the sender's two addresses and the wanted
/// one.
pub proof fn law_arp_request_layout(mac: Seq<u8>, target: Seq<u8>)
    requires
        mac.len() == 6,
        target.len() == 4,
    ensures
        ({
            let f = arp_request(mac, target);
            &&& f.len() == 42
            &&& forall|i: int| 0 <= i < 6 ==> f[i] == 0xFF
            &&& f.subrange(6, 12) == mac
            &&& number16(f, 12) == 0x0806
            &&& number16(f, 14) == 1
            &&& number16(f, 16) == 0x0800
            &&& f[18] == 6 && f[19] == 4
            &&& number16(f, 20) == 1
            &&& f.subrange(22, 28) == mac
            &&& f.subrange(28, 32) == seq![10u8, 0u8, 2u8, 15u8]
            &&& f.subrange(38, 42) == target
        }),
{
    let f = arp_request(mac, target);
    assert(f.subrange(6, 12) =~= mac);
    assert(f.subrange(22, 28) =~= mac);
    assert(f.subrange(28, 32) =~= seq![10u8, 0u8, 2u8, 15u8]);
    assert(f.subrange(38, 42) =~= target);
}

/// From a frame that answers for a sender, the sender's hardware address is
/// read.
pub proof fn law_arp_reply_names_its_sender(
    head: Seq<u8>,
    kind: Seq<u8>,
    sender_mac: Seq<u8>,
    sender_ip: Seq<u8>,
    rest: Seq<u8>,
)
    requires
        head.len() == 12,
        kind.len() == 6,
        sender_mac.len() == 6,
        sender_ip.len() == 4,
        rest.len() >= 10,
    ensures
        arp_reply_mac(head + seq![8u8, 6u8] + kind + seq![0u8, 2u8] + sender_mac + sender_ip + rest) == Some(
            sender_mac,
        ),
        arp_reply_mac(head + seq![8u8, 6u8] + kind + seq![0u8, 1u8] + sender_mac + sender_ip + rest) is None,
{
    let f = head + seq![8u8, 6u8] + kind + seq![0u8, 2u8] + sender_mac + sender_ip + rest;
    let g = head + seq![8u8, 6u8] + kind + seq![0u8, 1u8] + sender_mac + sender_ip + rest;
    assert(f.subrange(22, 28) =~= sender_mac);
    assert(f[12] == 8 && f[13] == 6 && f[20] == 0 && f[21] == 2);
    assert(g[12] == 8 && g[13] == 6 && g[20] == 0 && g[21] == 1);
}

// ---------------------------------------------------------------------
// Names
// ---------------------------------------------------------------------

/// How far behind the first label the label `i` stands: each one takes its
/// bytes and a length byte.
pub open spec fn label_start(labels: Seq<Seq<char>>, i: int) -> int
    decreases i,
{
    if i <= 0 {
        0
    } else {
        label_start(labels, i - 1) + 1 + encode_utf8(labels[i - 1]).len()
    }
}

/// Whether a label stands behind its length byte at `at`.
pub open spec fn label_at(d: Seq<u8>, at: int, l: Seq<u8>) -> bool {
    &&& 0 <= at && at + 1 + l.len() <= d.len()
    &&& d[at] == l.len()
    &&& d.subrange(at + 1, at + 1 + l.len()) == l
}

proof fn lemma_label_kept(a: Seq<u8>, b: Seq<u8>, at: int, l: Seq<u8>)
    requires
        label_at(a, at, l),
    ensures
        label_at(a + b, at, l),
{
    assert((a + b).subrange(at + 1, at + 1 + l.len()) =~= a.subrange(at + 1, at + 1 + l.len()));
}

proof fn lemma_label_added(a: Seq<u8>, l: Seq<u8>)
    requires
        l.len() <= 63,
    ensures
        label_at(a + seq![l.len() as u8] + l, a.len() as int, l),
{
    let b = a + seq![l.len() as u8] + l;
    assert(b.subrange(a.len() as int + 1, a.len() as int + 1 + l.len()) =~= l);
}

proof fn lemma_label_shifted(h: Seq<u8>, a: Seq<u8>, at: int, l: Seq<u8>)
    requires
        label_at(a, at, l),
    ensures
        label_at(h + a, h.len() + at, l),
{
    assert((h + a).subrange(h.len() + at + 1, h.len() + at + 1 + l.len()) =~= a.subrange(
        at + 1,
        at + 1 + l.len(),
    ));
}

proof fn lemma_labels_len(labels: Seq<Seq<char>>, n: int)
    requires
        0 <= n <= labels.len(),
        dns_labels(labels.take(n)) is Some,
    ensures
        dns_labels(labels.take(n))->0.len() == label_start(labels, n),
    decreases n,
{
    if n > 0 {
        assert(labels.take(n).drop_last() =~= labels.take(n - 1));
        lemma_labels_len(labels, n - 1);
    }
}

proof fn lemma_label(labels: Seq<Seq<char>>, n: int, i: int)
    requires
        0 <= i < n <= labels.len(),
        dns_labels(labels.take(n)) is Some,
    ensures
        label_at(dns_labels(labels.take(n))->0, label_start(labels, i), encode_utf8(labels[i])),
    decreases n,
{
    assert(labels.take(n).drop_last() =~= labels.take(n - 1));
    let a = dns_labels(labels.take(n - 1))->0;
    let l = encode_utf8(labels[n - 1]);
    assert(labels.take(n).last() == labels[n - 1]);
    let b = dns_labels(labels.take(n))->0;
    assert(b == a + seq![l.len() as u8] + l);
    if i < n - 1 {
        lemma_label(labels, n - 1, i);
        lemma_label_kept(a, seq![l.len() as u8], label_start(labels, i), encode_utf8(labels[i]));
        lemma_label_kept(a + seq![l.len() as u8], l, label_start(labels, i), encode_utf8(labels[i]));
    } else {
        lemma_labels_len(labels, n - 1);
        lemma_label_added(a, l);
    }
}

/// A DNS query asks one recursive question: the labels of the name, each
/// behind its length, a zero, then type and class 1.
pub proof fn law_dns_query_layout(name: Seq<char>)
    requires
        dns_query_of(name) is Some,
    ensures
        ({
            let q = dns_query_of(name)->0;
            let labels = pieces(name, '.');
            let end = 12 + label_start(labels, labels.len() as int);
            &&& q.len() == end + 5
            &&& number16(q, 2) == 0x0100
            &&& number16(q, 4) == 1
            &&& number16(q, 6) == 0 && number16(q, 8) == 0 && number16(q, 10) == 0
            &&& q[end] == 0
            &&& number16(q, end + 1) == 1
            &&& number16(q, end + 3) == 1
        }),
        forall|i: int|
            0 <= i < pieces(name, '.').len() ==> label_at(
                dns_query_of(name)->0,
                12 + label_start(pieces(name, '.'), i),
                #[trigger] encode_utf8(pieces(name, '.')[i]),
            ),
{
    let q = dns_query_of(name)->0;
    let labels = pieces(name, '.');
    assert(labels.take(labels.len() as int) =~= labels);
    lemma_labels_len(labels, labels.len() as int);
    let b = dns_labels(labels)->0;
    let h = seq![0xBEu8, 0xEFu8, 1u8, 0u8, 0u8, 1u8, 0u8, 0u8, 0u8, 0u8, 0u8, 0u8];
    let t = seq![0u8, 0u8, 1u8, 0u8, 1u8];
    assert(q == h + b + t);
    assert forall|i: int| 0 <= i < labels.len() implies label_at(
        q,
        12 + label_start(labels, i),
        #[trigger] encode_utf8(labels[i]),
    ) by {
        lemma_label(labels, labels.len() as int, i);
        lemma_label_shifted(h, b, label_start(labels, i), encode_utf8(labels[i]));
        lemma_label_kept(h + b, t, 12 + label_start(labels, i), encode_utf8(labels[i]));
    }
}

/// A name as labels, each behind its length, and a zero.
pub open spec fn name_bytes(labels: Seq<Seq<u8>>) -> Seq<u8>
    decreases labels.len(),
{
    if labels.len() == 0 {
        seq![0u8]
    } else {
        seq![labels[0].len() as u8] + labels[0] + name_bytes(labels.skip(1))
    }
}

proof fn lemma_behind_name(d: Seq<u8>, pos: int, labels: Seq<Seq<u8>>)
    requires
        0 <= pos,
        pos + name_bytes(labels).len() <= d.len(),
        d.subrange(pos, pos + name_bytes(labels).len()) == name_bytes(labels),
        forall|i: int| 0 <= i < labels.len() ==> 0 < (#[trigger] labels[i]).len() < 64,
    ensures
        behind_name(d, pos) == Some(pos + name_bytes(labels).len() as int),
    decreases labels.len(),
{
    let n = name_bytes(labels);
    let w = d.subrange(pos, pos + n.len());
    assert(w[0] == n[0]);
    assert(w[0] == d[pos]);
    if labels.len() > 0 {
        let l = labels[0];
        let rest = name_bytes(labels.skip(1));
        assert(0 < l.len() < 64);
        let c = l.len() as u8;
        assert(c & 0xC0 != 0xC0) by (bit_vector)
            requires
                c < 64,
        ;
        let next = pos + 1 + l.len();
        assert(rest =~= n.subrange(1 + l.len() as int, n.len() as int));
        assert(d.subrange(next, next + rest.len()) =~= w.subrange(1 + l.len() as int, n.len() as int));
        assert forall|i: int| 0 <= i < labels.skip(1).len() implies 0 < (#[trigger] labels.skip(1)[i]).len()
            < 64 by {
            assert(labels.skip(1)[i] == labels[i + 1]);
        }
        lemma_behind_name(d, next, labels.skip(1));
    }
}

/// A reply with one question and a first answer that points back at it with
/// a `C0` byte: of an answer of type 1 with four bytes of data, those are
/// the address; an answer of another type is passed over.
pub proof fn law_dns_reply_gives_its_address(
    head: Seq<u8>,
    counts: Seq<u8>,
    labels: Seq<Seq<u8>>,
    question: Seq<u8>,
    alias: Seq<u8>,
    ttl: Seq<u8>,
    ip: Seq<u8>,
    rest: Seq<u8>,
)
    requires
        head.len() == 6,
        counts.len() == 4,
        question.len() == 4,
        ttl.len() == 6,
        ip.len() == 4,
        alias.len() < 256,
        forall|i: int| 0 <= i < labels.len() ==> 0 < (#[trigger] labels[i]).len() < 64,
    ensures
        ({
            let start = head + seq![0u8, 2u8] + counts + name_bytes(labels) + question;
            let other = seq![0xC0u8, 12u8, 0u8, 5u8] + ttl + seq![0u8, alias.len() as u8] + alias;
            let address = seq![0xC0u8, 12u8, 0u8, 1u8] + ttl + seq![0u8, 4u8] + ip;
            &&& dns_answer(start + address + rest) == Some(ip)
            &&& dns_answer(start + other + address + rest) == Some(ip)
            &&& dns_answer(head + seq![0u8, 0u8] + counts + rest) is None
        }),
{
    let n = name_bytes(labels);
    let start = head + seq![0u8, 2u8] + counts + n + question;
    let other = seq![0xC0u8, 12u8, 0u8, 5u8] + ttl + seq![0u8, alias.len() as u8] + alias;
    let address = seq![0xC0u8, 12u8, 0u8, 1u8] + ttl + seq![0u8, 4u8] + ip;
    assert(0xC0u8 & 0xC0u8 == 0xC0u8) by (bit_vector);
    let d = start + address + rest;
    assert(d.subrange(12, 12 + n.len() as int) =~= n);
    lemma_behind_name(d, 12, labels);
    let p = start.len() as int;
    assert(d[6] == 0 && d[7] == 2);
    assert(d[p] == 0xC0 && d[p + 2] == 0 && d[p + 3] == 1 && d[p + 10] == 0 && d[p + 11] == 4);
    assert(behind_name(d, p) == Some(p + 2));
    assert(d.subrange(p + 12, p + 16) =~= ip);
    assert(first_a(d, p, 2) == Some(ip));
    let e = start + other + address + rest;
    assert(e.subrange(12, 12 + n.len() as int) =~= n);
    lemma_behind_name(e, 12, labels);
    assert(e[6] == 0 && e[7] == 2);
    assert(e[p] == 0xC0 && e[p + 2] == 0 && e[p + 3] == 5 && e[p + 10] == 0 && e[p + 11] == alias.len());
    assert(behind_name(e, p) == Some(p + 2));
    let q = p + 12 + alias.len();
    assert(e[q] == 0xC0 && e[q + 2] == 0 && e[q + 3] == 1 && e[q + 10] == 0 && e[q + 11] == 4);
    assert(behind_name(e, q) == Some(q + 2));
    assert(e.subrange(q + 12, q + 16) =~= ip);
    assert(first_a(e, q, 1) == Some(ip));
    assert(first_a(e, p, 2) == first_a(e, q, 1));
    let g = head + seq![0u8, 0u8] + counts + rest;
    assert(g[6] == 0 && g[7] == 0);
}

// ---------------------------------------------------------------------
// Addresses
// ---------------------------------------------------------------------

proof fn lemma_no_dot(n: nat)
    ensures
        !dec(n).contains('.'),
{
    law_dec_value(n);
    if dec(n).contains('.') {
        let i = choose|i: int| 0 <= i < dec(n).len() && dec(n)[i] == '.';
        assert(is_digit(dec(n)[i]));
    }
}

/// A piece without a dot behind a dot.
proof fn lemma_next_piece(s: Seq<char>, l: Seq<char>)
    requires
        !l.contains('.'),
    ensures
        pieces(s.push('.') + l, '.') == pieces(s, '.').push(l),
{
    let e = Seq::<char>::empty();
    lemma_pieces_sep(s, s.push('.'), '.', 0, e);
    let a = pieces(s, '.').push(e);
    lemma_pieces_prefix(s.push('.'), s.push('.') + l, '.', 0, e, l);
    assert(a.drop_last() =~= pieces(s, '.'));
    assert(a.last() + l =~= l);
}

/// Four numbers with dots between them are the address of those numbers.
pub proof fn law_dotted_quad_round_trip(a: u8, b: u8, c: u8, d: u8)
    ensures
        dotted_quad(
            ((dec(a as nat).push('.') + dec(b as nat)).push('.') + dec(c as nat)).push('.') + dec(d as nat),
        ) == Some(seq![a, b, c, d]),
{
    let (w, x, y, z) = (dec(a as nat), dec(b as nat), dec(c as nat), dec(d as nat));
    lemma_no_dot(a as nat);
    lemma_no_dot(b as nat);
    lemma_no_dot(c as nat);
    lemma_no_dot(d as nat);
    law_dec_parses_back(a as int, 255);
    law_dec_parses_back(b as int, 255);
    law_dec_parses_back(c as int, 255);
    law_dec_parses_back(d as int, 255);
    let e = Seq::<char>::empty();
    assert forall|k: int| 0 <= k < w.len() implies #[trigger] w[k] != '.' by {
        assert(w.contains(w[k]));
    }
    lemma_pieces_run(w, '.', 0, e);
    assert(e + w.skip(0) =~= w);
    lemma_next_piece(w, x);
    let s = w.push('.') + x;
    lemma_next_piece(s, y);
    let t = s.push('.') + y;
    lemma_next_piece(t, z);
    let p = pieces(t.push('.') + z, '.');
    assert(p =~= seq![w, x, y, z]);
}

} // verus!
