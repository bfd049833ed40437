use machaos::e1000_ring::{self, Step, TxPoll};
use machaos::e1000::{self, E1000};
use machaos::inet::{self, Kind, MacStep, SendStep, Sockets};
use machaos::net::{self, ArpCache, DnsStep, EchoStep, ExchangeStep, ResolveStep};

const MAC: [u8; 6] = [0x52, 0x54, 0, 0x12, 0x34, 0x56];
const PEER_MAC: [u8; 6] = [2, 2, 2, 2, 2, 2];
const PEER: [u8; 4] = [10, 0, 2, 2];

fn card() -> E1000 {
    let mut nic = E1000::absent();
    e1000::init(&mut nic, MAC);
    nic.refresh(2, 32);
    nic
}

fn frame(proto: u8, src: [u8; 4], payload: &[u8]) -> Vec<u8> {
    let mut ip = vec![0x45, 0];
    ip.extend_from_slice(&((20 + payload.len()) as u16).to_be_bytes());
    ip.extend_from_slice(&[0, 0, 0, 0, 64, proto, 0, 0]);
    ip.extend_from_slice(&src);
    ip.extend_from_slice(&net::OUR_IP);
    let c = net::checksum(&ip);
    ip[10] = (c >> 8) as u8;
    ip[11] = c as u8;
    let mut f = MAC.to_vec();
    f.extend_from_slice(&PEER_MAC);
    f.extend_from_slice(&[8, 0]);
    f.extend_from_slice(&ip);
    f.extend_from_slice(payload);
    f
}

fn udp(src_port: u16, dst_port: u16, data: &[u8]) -> Vec<u8> {
    let mut u = src_port.to_be_bytes().to_vec();
    u.extend_from_slice(&dst_port.to_be_bytes());
    u.extend_from_slice(&((8 + data.len()) as u16).to_be_bytes());
    u.extend_from_slice(&[0, 0]);
    u.extend_from_slice(data);
    u
}

fn tcp(src_port: u16, dst_port: u16, seq: u32, ack: u32, flags: u8, data: &[u8]) -> Vec<u8> {
    let mut t = src_port.to_be_bytes().to_vec();
    t.extend_from_slice(&dst_port.to_be_bytes());
    t.extend_from_slice(&seq.to_be_bytes());
    t.extend_from_slice(&ack.to_be_bytes());
    t.extend_from_slice(&[0x50, flags, 0xFF, 0xFF, 0, 0, 0, 0]);
    t.extend_from_slice(data);
    t
}

fn arp_reply() -> Vec<u8> {
    let mut f = MAC.to_vec();
    f.extend_from_slice(&PEER_MAC);
    f.extend_from_slice(&[8, 6, 0, 1, 8, 0, 6, 4, 0, 2]);
    f.extend_from_slice(&PEER_MAC);
    f.extend_from_slice(&PEER);
    f.extend_from_slice(&MAC);
    f.extend_from_slice(&net::OUR_IP);
    f
}

#[test]
fn internet_checksum() {
    assert_eq!(net::checksum(&[0x45, 0, 0, 0x3c, 0x1c, 0x46, 0x40, 0, 0x40, 6, 0, 0, 0xac, 0x10, 0x0a, 0x63, 0xac, 0x10, 0x0a, 0x0c]), 0xB1E6);
    assert_eq!(net::checksum(&[]), 0xFFFF);
    assert_eq!(net::checksum(&[1]), 0xFEFF);
}

#[test]
fn addresses_as_text() {
    assert_eq!(net::mac_to_str(&MAC), "52:54:00:12:34:56");
    assert_eq!(net::parse_ip("10.0.2.15"), Some([10, 0, 2, 15]));
    assert_eq!(net::parse_ip("10.0.2"), None);
    assert_eq!(net::parse_ip("10.0.2.256"), None);
    assert_eq!(net::parse_ip("a.b.c.d"), None);
}

#[test]
fn card_states() {
    let mut nic = E1000::absent();
    assert_eq!(e1000::mac(&nic), None);
    assert!(e1000::send(&mut nic, &[1]).is_err());
    let mut nic = card();
    assert!(e1000::link_up(&nic));
    assert!(e1000::send(&mut nic, &[1, 2, 3]).is_ok());
    assert_eq!(nic.take_tx(), vec![vec![1, 2, 3]]);
    nic.receive(vec![9]);
    assert_eq!(e1000::poll_rx(&mut nic), Some(vec![9]));
    assert_eq!(e1000::poll_rx(&mut nic), None);
    assert_eq!(e1000::stats(&nic), (1, 1));
    assert_eq!(e1000::mac_from_registers(0x1200_5452, 0x5634), MAC);
}

#[test]
fn arp_request_and_reply() {
    let mut nic = card();
    let mut cache = ArpCache::new();
    let deadline = match net::resolve(&cache, &mut nic, PEER, 300, 10) {
        ResolveStep::Wait { deadline } => deadline,
        _ => panic!(),
    };
    assert_eq!(deadline, 310);
    let sent = nic.take_tx();
    assert_eq!(sent[0].len(), 42);
    assert_eq!(&sent[0][38..42], &PEER);
    nic.receive(arp_reply());
    match net::resolve_poll(&mut cache, &mut nic, PEER, deadline, 11) {
        ResolveStep::Resolved(m) => assert_eq!(m, PEER_MAC),
        _ => panic!(),
    }
    assert_eq!(net::arp_lookup(&cache, PEER), Some(PEER_MAC));
    assert!(matches!(net::resolve_poll(&mut cache, &mut nic, [1, 2, 3, 4], 5, 9), ResolveStep::Failed));
}

#[test]
fn arp_cache_keeps_eight() {
    let mut c = ArpCache::new();
    for i in 0..9u8 {
        net::cache_arp(&mut c, [10, 0, 0, i], [i; 6]);
    }
    assert_eq!(net::arp_lookup(&c, [10, 0, 0, 0]), None);
    assert_eq!(net::arp_lookup(&c, [10, 0, 0, 8]), Some([8; 6]));
    net::cache_arp(&mut c, [10, 0, 0, 8], [7; 6]);
    assert_eq!(net::arp_lookup(&c, [10, 0, 0, 8]), Some([7; 6]));
}

#[test]
fn ipv4_frames_parse_back() {
    let mut nic = card();
    assert!(net::send_ipv4_mac(&mut nic, PEER_MAC, PEER, 17, b"payload").is_ok());
    let f = nic.take_tx().remove(0);
    let (src, dst, proto, payload) = net::parse_ipv4(&f).unwrap();
    assert_eq!((src, dst, proto, payload), (net::OUR_IP, PEER, 17, &b"payload"[..]));
    assert_eq!(net::checksum(&f[14..34]), 0);
    let mut bad = f.clone();
    bad[16] = 0;
    bad[17] = 10;
    assert!(net::parse_ipv4(&bad).is_none());
    assert!(net::parse_ipv4(&f[..20]).is_none());
}

#[test]
fn tcp_segments_parse_back() {
    let s = net::build_tcp(1000, 80, 5, 6, net::TCP_ACK, b"hi", PEER);
    let p = net::parse_tcp(&s).unwrap();
    assert_eq!((p.src_port, p.dst_port, p.seq, p.ack, p.flags), (1000, 80, 5, 6, net::TCP_ACK));
    assert_eq!(p.payload, b"hi");
    assert!(net::parse_tcp(&s[..10]).is_none());
}

#[test]
fn datagrams_arrive_whole() {
    let mut nic = card();
    nic.receive(frame(17, PEER, &udp(53, 4000, b"abc")));
    let p = net::poll_udp(&mut nic, 4000).unwrap();
    assert_eq!((p.src_ip, p.src_port, p.payload), (PEER, 53, b"abc".to_vec()));
    assert!(net::poll_udp(&mut nic, 4000).is_none());
}

#[test]
fn dns_query_and_answer() {
    let q = net::dns_query("a.bc").unwrap();
    assert_eq!(&q[12..18], &[1, b'a', 2, b'b', b'c', 0]);
    let mut nic = card();
    let deadline = match net::dns_lookup(&mut nic, Some(PEER_MAC), "a.bc", 50, 100) {
        DnsStep::Wait { deadline } => deadline,
        _ => panic!(),
    };
    let mut reply = q.clone();
    reply[2] = 0x81;
    reply[3] = 0x80;
    reply[7] = 1;
    reply.extend_from_slice(&[0xC0, 12, 0, 1, 0, 1, 0, 0, 0, 60, 0, 4, 93, 184, 216, 34]);
    assert_eq!(net::parse_dns_a(&reply), Some([93, 184, 216, 34]));
    nic.receive(frame(17, net::DNS_IP, &udp(53, net::DNS_PORT, &reply)));
    assert!(matches!(net::dns_poll(&mut nic, deadline, 120), DnsStep::Found([93, 184, 216, 34])));
    assert!(matches!(net::dns_poll(&mut nic, deadline, deadline), DnsStep::Failed));
}

#[test]
fn http_request_and_body() {
    let r = net::http_get([1, 2, 3, 4], "/x");
    let text = String::from_utf8(r).unwrap();
    assert!(text.starts_with("GET /x HTTP/1.0\r\n"));
    assert!(text.contains("Host: 1.2.3.4\r\n"));
    assert!(text.ends_with("\r\n\r\n"));
    assert_eq!(net::http_body(b"HTTP/1.0 200 OK\r\nA: b\r\n\r\nbody"), b"body");
}

fn established() -> (Sockets, ArpCache, E1000, usize, u16, u32) {
    let mut net_ = Sockets::new();
    let mut cache = ArpCache::new();
    net::cache_arp(&mut cache, PEER, PEER_MAC);
    let mut nic = card();
    let id = inet::create(&mut net_, Kind::Tcp);
    assert!(inet::start_connect(&mut net_, &cache, &mut nic, id, PEER, 80).is_ok());
    let syn = nic.take_tx().remove(0);
    let (_, _, _, seg) = net::parse_ipv4(&syn).unwrap();
    let seg = net::parse_tcp(seg).unwrap();
    assert_eq!(seg.flags, net::TCP_SYN);
    assert_eq!(inet::connect_done(&net_, id), Ok(false));
    nic.receive(frame(6, PEER, &tcp(80, seg.src_port, 1000, seg.seq.wrapping_add(1), 0x12, b"")));
    inet::pump(&mut net_, &mut cache, &mut nic);
    assert_eq!(inet::connect_done(&net_, id), Ok(true));
    nic.take_tx();
    (net_, cache, nic, id, seg.src_port, seg.seq.wrapping_add(1))
}

#[test]
fn client_handshake_and_data() {
    let (mut net_, mut cache, mut nic, id, port, seq) = established();
    assert_eq!(inet::peer_of(&net_, id), Some((PEER, 80)));
    assert!(matches!(inet::send(&mut net_, &cache, &mut nic, id, b"ping", 0), SendStep::Done(4)));
    let f = nic.take_tx().remove(0);
    let (_, _, _, s) = net::parse_ipv4(&f).unwrap();
    assert_eq!(net::parse_tcp(s).unwrap().payload, b"ping");
    nic.receive(frame(6, PEER, &tcp(80, port, 1001, seq + 4, 0x18, b"pong")));
    inet::pump(&mut net_, &mut cache, &mut nic);
    assert_eq!(inet::readiness(&net_, id).0, true);
    let mut buf = vec![0u8; 2];
    assert_eq!(inet::recv(&mut net_, id, &mut buf), Ok(2));
    assert_eq!(&buf, b"po");
    assert_eq!(inet::recv(&mut net_, id, &mut buf), Ok(2));
    assert_eq!(&buf, b"ng");
    assert_eq!(inet::recv(&mut net_, id, &mut buf), Err(inet::EAGAIN));
}

#[test]
fn a_drained_connection_takes_the_next_segment() {
    let (mut net_, mut cache, mut nic, id, port, seq) = established();
    let mut buf = vec![0u8; 8];
    nic.receive(frame(6, PEER, &tcp(80, port, 1001, seq, 0x18, b"one")));
    inet::pump(&mut net_, &mut cache, &mut nic);
    assert_eq!(inet::recv(&mut net_, id, &mut buf), Ok(3));
    nic.take_tx();
    nic.receive(frame(6, PEER, &tcp(80, port, 1004, seq, 0x18, b"more")));
    inet::pump(&mut net_, &mut cache, &mut nic);
    let f = nic.take_tx().remove(0);
    let (_, _, _, s) = net::parse_ipv4(&f).unwrap();
    assert_eq!(net::parse_tcp(s).unwrap().ack, 1008);
    assert_eq!(inet::recv(&mut net_, id, &mut buf), Ok(4));
    assert_eq!(&buf[..4], b"more");
}

#[test]
fn a_syn_waits_for_the_address() {
    let mut net_ = Sockets::new();
    let mut cache = ArpCache::new();
    let mut nic = card();
    let id = inet::create(&mut net_, Kind::Tcp);
    assert!(inet::start_connect(&mut net_, &cache, &mut nic, id, PEER, 80).is_ok());
    assert_eq!(&nic.take_tx().remove(0)[..6], &[0xFF; 6]);
    nic.receive(arp_reply());
    inet::pump(&mut net_, &mut cache, &mut nic);
    let sent = nic.take_tx();
    let syn = sent.iter().find(|f| net::parse_ipv4(f).is_some()).unwrap();
    assert_eq!(&syn[..6], &PEER_MAC);
    let (_, _, _, s) = net::parse_ipv4(syn).unwrap();
    assert_eq!(net::parse_tcp(s).unwrap().flags, net::TCP_SYN);
}

#[test]
fn connecting_a_udp_socket_sends_nothing() {
    let mut net_ = Sockets::new();
    let cache = ArpCache::new();
    let mut nic = card();
    let id = inet::create(&mut net_, Kind::Udp);
    assert!(inet::start_connect(&mut net_, &cache, &mut nic, id, PEER, 53).is_ok());
    assert!(nic.take_tx().is_empty());
    assert_eq!(inet::peer_of(&net_, id), Some((PEER, 53)));
}

#[test]
fn a_reset_ends_the_connection() {
    let (mut net_, mut cache, mut nic, id, port, seq) = established();
    nic.receive(frame(6, PEER, &tcp(80, port, 1001, seq, 0x04, b"")));
    inet::pump(&mut net_, &mut cache, &mut nic);
    let mut buf = vec![0u8; 2];
    assert_eq!(inet::recv(&mut net_, id, &mut buf), Err(inet::ECONNRESET));
}

#[test]
fn a_fin_reads_as_end_of_stream() {
    let (mut net_, mut cache, mut nic, id, port, seq) = established();
    nic.receive(frame(6, PEER, &tcp(80, port, 1001, seq, 0x11, b"")));
    inet::pump(&mut net_, &mut cache, &mut nic);
    let mut buf = vec![0u8; 2];
    assert_eq!(inet::recv(&mut net_, id, &mut buf), Ok(0));
}

#[test]
fn a_fin_behind_a_gap_is_dropped() {
    let (mut net_, mut cache, mut nic, id, port, seq) = established();
    let mut buf = vec![0u8; 4];
    nic.receive(frame(6, PEER, &tcp(80, port, 1005, seq, 0x19, b"late")));
    inet::pump(&mut net_, &mut cache, &mut nic);
    let f = nic.take_tx().remove(0);
    let (_, _, _, s) = net::parse_ipv4(&f).unwrap();
    assert_eq!(net::parse_tcp(s).unwrap().ack, 1001);
    assert_eq!(inet::recv(&mut net_, id, &mut buf), Err(inet::EAGAIN));
    nic.receive(frame(6, PEER, &tcp(80, port, 1001, seq, 0x18, b"soon")));
    nic.receive(frame(6, PEER, &tcp(80, port, 1005, seq, 0x19, b"late")));
    inet::pump(&mut net_, &mut cache, &mut nic);
    let f = nic.take_tx().pop().unwrap();
    let (_, _, _, s) = net::parse_ipv4(&f).unwrap();
    assert_eq!(net::parse_tcp(s).unwrap().ack, 1010);
    assert_eq!(inet::recv(&mut net_, id, &mut buf), Ok(4));
    assert_eq!(inet::recv(&mut net_, id, &mut buf), Ok(4));
    assert_eq!(inet::recv(&mut net_, id, &mut buf), Ok(0));
}

#[test]
fn server_handshake_hands_out_a_connection() {
    let mut net_ = Sockets::new();
    let mut cache = ArpCache::new();
    net::cache_arp(&mut cache, PEER, PEER_MAC);
    let mut nic = card();
    let id = inet::create(&mut net_, Kind::Tcp);
    assert_eq!(inet::bind(&mut net_, id, 8080), Ok(()));
    assert_eq!(inet::listen(&mut net_, id), Ok(()));
    assert!(inet::is_listening(&net_, id));
    let other = inet::create(&mut net_, Kind::Tcp);
    assert_eq!(inet::bind(&mut net_, other, 8080), Err(inet::EADDRINUSE));
    nic.receive(frame(6, PEER, &tcp(5000, 8080, 77, 0, 0x02, b"")));
    inet::pump(&mut net_, &mut cache, &mut nic);
    let f = nic.take_tx().remove(0);
    let (_, _, _, s) = net::parse_ipv4(&f).unwrap();
    let s = net::parse_tcp(s).unwrap();
    assert_eq!((s.flags, s.ack), (0x12, 78));
    assert_eq!(s.seq, 0x00AC_CE55 + 77);
    assert_eq!(inet::accept_pending(&mut net_, id), None);
    nic.receive(frame(6, PEER, &tcp(5000, 8080, 77, 0, 0x02, b"")));
    inet::pump(&mut net_, &mut cache, &mut nic);
    let again = nic.take_tx().remove(0);
    let (_, _, _, r) = net::parse_ipv4(&again).unwrap();
    let r = net::parse_tcp(r).unwrap();
    assert_eq!((r.flags, r.ack, r.seq), (0x12, 78, s.seq));
    nic.receive(frame(6, PEER, &tcp(5000, 8080, 78, s.seq.wrapping_add(1), 0x10, b"")));
    inet::pump(&mut net_, &mut cache, &mut nic);
    let conn = inet::accept_pending(&mut net_, id).unwrap();
    assert_eq!(inet::peer_of(&net_, conn), Some((PEER, 5000)));
}

#[test]
fn udp_sockets_keep_datagrams_apart() {
    let mut net_ = Sockets::new();
    let mut cache = ArpCache::new();
    let mut nic = card();
    let id = inet::create(&mut net_, Kind::Udp);
    assert_eq!(inet::bind(&mut net_, id, 7000), Ok(()));
    nic.receive(frame(17, PEER, &udp(9, 7000, b"one")));
    nic.receive(frame(17, PEER, &udp(9, 7000, b"two")));
    inet::pump(&mut net_, &mut cache, &mut nic);
    let mut buf = vec![0u8; 16];
    let (n, meta) = inet::recv_from(&mut net_, id, &mut buf).unwrap();
    assert_eq!((&buf[..n], meta.src_ip, meta.src_port), (&b"one"[..], PEER, 9));
    let (n, _) = inet::recv_from(&mut net_, id, &mut buf).unwrap();
    assert_eq!(&buf[..n], b"two");
    assert!(matches!(inet::recv(&mut net_, 99, &mut buf), Err(e) if e == inet::EBADF));
    net::cache_arp(&mut cache, PEER, PEER_MAC);
    assert!(matches!(inet::sendto(&mut net_, &cache, &mut nic, id, PEER, 9, b"x", 0), SendStep::Done(1)));
    assert_eq!(inet::local_port_of(&net_, id), 7000);
}

#[test]
fn rings_hand_out_descriptors_in_turn() {
    let buffers: Vec<Option<u64>> = (0..32).map(|i| Some(0x10_0000 + i * 0x1000)).collect();
    let mut g = e1000_ring::init_rings(Some(0x1000), Some(0x2000), Some(0x3000), &buffers).unwrap();
    assert_eq!(g.post(60), 1);
    assert_eq!((g.tx[0].addr, g.tx[0].length, g.tx[0].cmd, g.tx[0].status), (0x3000, 60, 0x0B, 0));
    for _ in 0..31 {
        g.post(1);
    }
    assert_eq!(g.tx_cur, 0);
    assert!(g.take().is_none());
    g.rx[0].status = 1;
    g.rx[0].length = 5000;
    let got = g.take().unwrap();
    assert_eq!((got.buffer, got.len, got.tail), (0x10_0000, 2048, 0));
    assert_eq!((g.rx[0].status, g.rx[0].length, g.rx_cur), (0, 0, 1));
    assert_eq!(e1000_ring::poll_tx(1, 500_000), TxPoll::Sent);
    assert_eq!(e1000_ring::poll_tx(0, 99_999), TxPoll::Again);
    assert_eq!(e1000_ring::poll_tx(0, 100_000), TxPoll::TimedOut);
    assert_eq!(e1000_ring::init_rings(Some(0), None, Some(0), &buffers).err(), Some("no memory for TX ring"));
    let mut high = buffers.clone();
    high[3] = Some(1 << 32);
    assert_eq!(
        e1000_ring::init_rings(Some(0), Some(0), Some(0), &high).err(),
        Some("e1000: DMA buffer above 4 GiB (82540EM is 32-bit)")
    );
    high[2] = None;
    assert_eq!(e1000_ring::init_rings(Some(0), Some(0), Some(0), &high).err(), Some("no memory for RX buffers"));
}

#[test]
fn card_bring_up() {
    let mut b = e1000_ring::Bringup::new();
    assert!(matches!(b.init(0), Step::Read(0)));
    assert!(matches!(b.init(8), Step::Write(0, 0x400_0008)));
    assert!(matches!(b.init(0), Step::Read(0)));
    assert!(matches!(b.init(0x400_0000), Step::Read(0)));
    assert!(matches!(b.init(0), Step::Read(0x5400)));
    assert!(matches!(b.init(0x1200_5452), Step::Read(0x5404)));
    assert!(matches!(b.init(0x5634), Step::Frames));
    assert_eq!(b.mac, MAC);
    let buffers: Vec<Option<u64>> = vec![Some(0x5000); 32];
    let rings = e1000_ring::init_rings(Some(0x1000), Some(0x2000), Some(0x3000), &buffers);
    match b.take_frames(&rings) {
        Step::Configure(w) => {
            assert_eq!(w.len(), 13);
            assert_eq!((w[0], w[4], w[6]), ((0x2800, 0x1000), (0x2818, 31), (0x3800, 0x2000)));
        }
        _ => panic!(),
    }
    assert!(matches!(b.init(0), Step::Read(0)));
    assert!(matches!(b.init(1), Step::Write(0, 0x41)));
    assert!(matches!(b.init(0), Step::Ready));
    let mut dead = e1000_ring::Bringup::new();
    for v in [0, 0, 0, 0, 0] {
        dead.init(v);
    }
    assert!(matches!(dead.init(0), Step::Fail("e1000 MAC is all zeroes")));
    assert_eq!(e1000_ring::register_base(0xF).err(), Some("e1000 BAR0 not assigned"));
    assert_eq!(e1000_ring::enabled_command(8), 15);
}

#[test]
fn http_exchange_fills_the_reply() {
    let mut nic = card();
    let mut x =
        net::tcp_request(&mut nic, Some(PEER_MAC), PEER, 80, b"GET".to_vec(), vec![0; 8], 100, false, 10).unwrap();
    let syn = nic.take_tx().remove(0);
    let s = net::parse_tcp(net::parse_ipv4(&syn).unwrap().3).unwrap();
    assert_eq!((s.flags, s.src_port, s.seq), (2, 7777, 0x1234_5678));
    assert!(matches!(x.poll(&mut nic, 11), ExchangeStep::Wait));
    nic.receive(frame(6, PEER, &tcp(80, 7777, 500, 0x1234_5679, 0x12, b"")));
    while matches!(x.poll(&mut nic, 12), ExchangeStep::Again) {}
    let sent: Vec<Vec<u8>> = nic
        .take_tx()
        .iter()
        .map(|f| net::parse_tcp(net::parse_ipv4(f).unwrap().3).unwrap().payload)
        .collect();
    assert!(sent.contains(&b"GET".to_vec()));
    nic.receive(frame(6, PEER, &tcp(80, 7777, 501, 0x1234_567C, 0x18, b"OK!")));
    nic.receive(frame(6, PEER, &tcp(80, 7777, 504, 0x1234_567C, 0x11, b"")));
    let mut step = x.poll(&mut nic, 13);
    for _ in 0..4 {
        if matches!(step, ExchangeStep::Again | ExchangeStep::Wait) {
            step = x.poll(&mut nic, 13);
        }
    }
    assert!(matches!(step, ExchangeStep::Done(3)));
    assert_eq!(&x.reply()[..3], b"OK!");
    assert_eq!(
        net::tcp_request(&mut nic, None, PEER, 80, vec![], vec![], 1, false, 0).err(),
        Some("ARP failed")
    );
}

#[test]
fn udp_echo_comes_back() {
    let mut nic = card();
    let deadline = net::udp_echo(&mut nic, Some(PEER_MAC), 7, b"hey", 50, 100).unwrap();
    assert_eq!(deadline, 150);
    let mut reply = vec![0u8; 8];
    assert!(matches!(net::udp_echo_poll(&mut nic, 7, &mut reply, deadline, 120), EchoStep::Wait));
    nic.receive(frame(17, PEER, &udp(7, 5555, b"hey")));
    assert!(matches!(net::udp_echo_poll(&mut nic, 7, &mut reply, deadline, 120), EchoStep::Done(3)));
    assert_eq!(&reply[..3], b"hey");
    assert!(matches!(
        net::udp_echo_poll(&mut nic, 7, &mut reply, deadline, 150),
        EchoStep::Failed("UDP echo timeout")
    ));
}

#[test]
fn sockets_close_and_resolve() {
    let (mut net_, mut cache, mut nic, id, _, _) = established();
    assert!(!inet::is_nonblock(&net_, id));
    assert_eq!(inet::set_nonblock(&mut net_, id, true), Ok(()));
    assert!(inet::is_nonblock(&net_, id));
    inet::close(&mut net_, &mut nic, id);
    assert_eq!(inet::peer_of(&net_, id), None);
    assert_eq!(inet::set_nonblock(&mut net_, id, true), Err(inet::EBADF));
    let far = [10, 0, 2, 9];
    assert!(matches!(inet::ensure_mac(&mut net_, &mut cache, &mut nic, far, 9, 5), MacStep::Wait));
    assert!(matches!(inet::ensure_mac(&mut net_, &mut cache, &mut nic, far, 9, 9), MacStep::Failed(_)));
    assert!(matches!(inet::ensure_mac(&mut net_, &mut cache, &mut nic, PEER, 9, 9), MacStep::Ready(m) if m == PEER_MAC));
}
