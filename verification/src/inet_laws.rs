//! How the two ends of a TCP connection agree, and what goes over the wire.

use crate::inet::{
    child_of, conn_matches, fin_segment, in_established, in_listen, in_syn_sent, listener_slot,
    server_isn, stream_read, Conn, Kind, Sock, Table, TcpState,
};
use crate::net::{cached, law_tcp_round_trip, seq_plus, tcp_of, Segment};
use crate::net_laws::{law_tcp_segment_layout, number16, number32};
use vstd::prelude::*;

verus! {

/// A sequence number moves on modulo 2^32.
pub proof fn law_sequence_numbers_wrap(a: u32, n: nat, m: nat)
    ensures
        seq_plus(a, n as int) == (a + n) % 0x1_0000_0000,
        seq_plus(seq_plus(a, n as int), m as int) == seq_plus(a, (n + m) as int),
{
}

/// A SYN-ACK is answered with a bare ACK from the client's port to the
/// server's, of the number after the server's.
pub proof fn law_syn_ack_is_acknowledged(s: Sock, t: Conn, g: Segment)
    requires
        s.tcp == Some(t),
        g.flags & 0x04 == 0,
        g.flags & 0x12 == 0x12,
    ensures
        in_syn_sent(s, t, g).1 matches Some(r) && r.mac == t.dst_mac && r.ip == t.dst_ip && r.seg.len() == 20
            && number16(r.seg, 0) == s.local_port && number16(r.seg, 2) == t.dst_port && number32(r.seg, 4) == t.our_seq
            && number32(r.seg, 8) == (g.seq + 1) % 0x1_0000_0000 && r.seg[13] == 0x10,
{
    law_tcp_segment_layout(
        s.local_port,
        t.dst_port,
        t.our_seq,
        seq_plus(g.seq, 1),
        0x10,
        Seq::empty(),
        t.dst_ip,
    );
}

/// Data in order on an open connection is acknowledged up to its end with a
/// bare ACK; so is a FIN behind it, which counts one more.
pub proof fn law_data_is_acknowledged(s: Sock, t: Conn, g: Segment)
    requires
        s.tcp == Some(t),
        g.flags & 0x04 == 0,
        g.seq == t.their_next,
    ensures
        in_established(s, t, g).1 matches Some(r) && r.mac == t.dst_mac && r.ip == t.dst_ip && r.seg.len() == 20
            && number16(r.seg, 0) == s.local_port && number16(r.seg, 2) == t.dst_port && number32(r.seg, 4) == t.our_seq
            && number32(r.seg, 8) == (g.seq + g.payload.len() + (if g.flags & 0x01 != 0 {
            1int
        } else {
            0
        })) % 0x1_0000_0000 && r.seg[13] == 0x10,
{
    let r = in_established(s, t, g).1->0;
    let end = seq_plus(g.seq, g.payload.len() as int);
    let ack = if g.flags & 0x01 != 0 {
        seq_plus(end, 1)
    } else {
        end
    };
    assert(seq_plus(t.their_next, 0) == t.their_next);
    law_tcp_segment_layout(s.local_port, t.dst_port, t.our_seq, ack, 0x10, Seq::empty(), t.dst_ip);
}

/// A SYN to a listener is answered from the port it came to with a SYN-ACK
/// of the number after its own.
pub proof fn law_syn_is_answered(t: Table, cache: Seq<(Seq<u8>, Seq<u8>)>, src_ip: Seq<u8>, g: Segment)
    requires
        listener_slot(t.socks, g.dst_port, 0) < t.socks.len(),
        g.flags & 0x02 != 0,
        g.flags & 0x10 == 0,
        cached(cache, src_ip) is Some,
    ensures
        in_listen(t, cache, src_ip, g).1 matches Some(r) && r.ip == src_ip && r.mac == cached(cache, src_ip)->0
            && number16(r.seg, 0) == g.dst_port && number16(r.seg, 2) == g.src_port && number32(r.seg, 8) == (g.seq + 1)
            % 0x1_0000_0000 && r.seg[13] == 0x12,
{
    law_tcp_segment_layout(
        g.dst_port,
        g.src_port,
        server_isn(g.seq),
        seq_plus(g.seq, 1),
        0x12,
        Seq::empty(),
        src_ip,
    );
}

/// After a handshake each side's next number is the one that the other side
/// expects: the client, whose SYN had the number before its own next one,
/// takes the server's answer in.
pub proof fn law_both_ends_agree(
    t: Table,
    cache: Seq<(Seq<u8>, Seq<u8>)>,
    src_ip: Seq<u8>,
    syn: Segment,
    s: Sock,
    c: Conn,
)
    requires
        listener_slot(t.socks, syn.dst_port, 0) < t.socks.len(),
        syn.flags & 0x02 != 0,
        syn.flags & 0x10 == 0,
        cached(cache, src_ip) is Some,
        s.tcp == Some(c),
        c.our_seq == (syn.seq + 1) % 0x1_0000_0000,
    ensures
        ({
            let server = child_of(listener_slot(t.socks, syn.dst_port, 0), src_ip, cached(cache, src_ip)->0, syn);
            let answer = in_listen(t, cache, src_ip, syn).1->0.seg;
            let client = in_syn_sent(s, c, tcp_of(answer)->0).0;
            &&& tcp_of(answer) is Some
            &&& server.tcp->0.their_next == client.tcp->0.our_seq
            &&& client.tcp->0.their_next == server.tcp->0.our_seq
            &&& client.tcp->0.state == TcpState::Established
            &&& server.local_port == syn.dst_port && server.tcp->0.dst_port == syn.src_port
            &&& server.tcp->0.dst_ip == src_ip
        }),
{
    law_tcp_round_trip(
        syn.dst_port,
        syn.src_port,
        server_isn(syn.seq),
        seq_plus(syn.seq, 1),
        0x12,
        Seq::empty(),
        src_ip,
    );
    assert(0x12u8 & 0x04u8 == 0 && 0x12u8 & 0x12u8 == 0x12) by (bit_vector);
}

/// A segment belongs to the connection with its ports and its sender's
/// address, and to no other.
pub proof fn law_segment_finds_its_connection(s: Sock, c: Conn, src_ip: Seq<u8>, g: Segment)
    requires
        s.kind == Kind::Tcp,
        s.tcp == Some(c),
    ensures
        conn_matches(Some(s), src_ip, g) <==> g.dst_port == s.local_port && g.src_port == c.dst_port && src_ip
            == c.dst_ip,
        !conn_matches(None, src_ip, g),
{
}

/// Closing sends a FIN with an ACK of what came in so far.
pub proof fn law_fin_segment(s: Sock, t: Conn)
    ensures
        ({
            let f = fin_segment(s, t);
            &&& f.len() == 20
            &&& number16(f, 0) == s.local_port
            &&& number16(f, 2) == t.dst_port
            &&& number32(f, 4) == t.our_seq
            &&& number32(f, 8) == t.their_next
            &&& f[13] == 0x11
        }),
{
    law_tcp_segment_layout(s.local_port, t.dst_port, t.our_seq, t.their_next, 0x11, Seq::empty(), t.dst_ip);
}

/// A read takes from the front of what came in, as much as there is room
/// for, and leaves the rest; the end of the stream shows only once all was
/// read.
pub proof fn law_stream_is_read_in_order(s: Sock, buf: Seq<u8>)
    requires
        !s.rst,
        buf.len() <= usize::MAX,
    ensures
        ({
            let (r, u, b) = stream_read(s, buf);
            let n = s.inbox.len() - u.inbox.len();
            &&& 0 <= n <= buf.len()
            &&& n == s.inbox.len() || n == buf.len()
            &&& b.len() == buf.len()
            &&& b.take(n) + u.inbox == s.inbox
            &&& b.skip(n) == buf.skip(n)
            &&& n > 0 ==> r == Ok::<usize, i32>(n as usize)
            &&& n == 0 ==> (r == Ok::<usize, i32>(0) <==> s.eof)
        }),
{
    let (r, u, b) = stream_read(s, buf);
    let n = s.inbox.len() - u.inbox.len();
    assert(b.take(n) + u.inbox =~= s.inbox);
    assert(b.skip(n) =~= buf.skip(n));
}

} // verus!
