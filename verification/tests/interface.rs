use tcpstack::error::Error;
use tcpstack::iface::{Endpoint, Interface, Quad, Shutdown, TcpStream};
use tcpstack::tcp::State;

const PEER: [u8; 4] = [192, 168, 0, 2];
const LOCAL: [u8; 4] = [192, 168, 0, 1];
const PEER_PORT: u16 = 40000;

struct Flags {
    syn: bool,
    ack: bool,
    fin: bool,
    rst: bool,
}

const SYN: Flags = Flags { syn: true, ack: false, fin: false, rst: false };
const ACK: Flags = Flags { syn: false, ack: true, fin: false, rst: false };
const FIN_ACK: Flags = Flags { syn: false, ack: true, fin: true, rst: false };
const RST: Flags = Flags { syn: false, ack: false, fin: false, rst: true };

fn from_peer(port: u16, seq: u32, ack: u32, flags: &Flags, wnd: u16, payload: &[u8]) -> Vec<u8> {
    let mut tcp = etherparse::TcpHeader::new(PEER_PORT, port, seq, wnd);
    tcp.acknowledgment_number = ack;
    tcp.syn = flags.syn;
    tcp.ack = flags.ack;
    tcp.fin = flags.fin;
    tcp.rst = flags.rst;
    let ip = etherparse::Ipv4Header::new(
        20 + payload.len() as u16,
        64,
        etherparse::IpTrafficClass::Tcp,
        PEER,
        LOCAL,
    );
    tcp.checksum = tcp.calc_checksum_ipv4(&ip, payload).unwrap();
    let mut out = Vec::new();
    ip.write(&mut out).unwrap();
    tcp.write(&mut out).unwrap();
    out.extend_from_slice(payload);
    out
}

fn read_back(datagram: &[u8]) -> (etherparse::Ipv4Header, etherparse::TcpHeader, Vec<u8>) {
    let (ip, rest) = etherparse::Ipv4Header::read_from_slice(datagram).unwrap();
    let (tcp, payload) = etherparse::TcpHeader::read_from_slice(rest).unwrap();
    assert_eq!(tcp.checksum, tcp.calc_checksum_ipv4(&ip, payload).unwrap());
    (ip, tcp, payload.to_vec())
}

fn quad(port: u16) -> Quad {
    Quad {
        src: Endpoint { addr: u32::from_be_bytes(PEER), port: PEER_PORT },
        dst: Endpoint { addr: u32::from_be_bytes(LOCAL), port },
    }
}

fn state(iface: &Interface, port: u16) -> Option<State> {
    iface.connection(&quad(port)).map(|c| c.state())
}

fn established(port: u16) -> (Interface, TcpStream) {
    let mut iface = Interface::new();
    let mut listener = iface.bind(port).unwrap();
    let out = iface.receive(&from_peer(port, 1000, 0, &SYN, 4096, &[]));
    assert_eq!(out.len(), 1);
    let out = iface.receive(&from_peer(port, 1001, 1, &ACK, 4096, &[]));
    assert!(out.is_empty());
    let stream = listener.accept(&mut iface).unwrap();
    (iface, stream)
}

#[test]
fn second_bind_of_a_port_is_refused() {
    let mut iface = Interface::new();
    let listener = iface.bind(443).unwrap();
    assert_eq!(listener.port(), 443);
    assert!(iface.is_bound(443));
    assert_eq!(iface.bind(443).unwrap_err(), Error::AddrInUse);
    assert!(iface.bind(444).is_ok());
}

#[test]
fn handshake_leads_to_accept() {
    let mut iface = Interface::new();
    let mut listener = iface.bind(443).unwrap();
    assert_eq!(listener.accept(&mut iface).unwrap_err(), Error::WouldBlock);

    let out = iface.receive(&from_peer(443, 1000, 0, &SYN, 4096, &[]));
    assert_eq!(out.len(), 1);
    let (ip, tcp, payload) = read_back(&out[0]);
    assert_eq!(ip.source, LOCAL);
    assert_eq!(ip.destination, PEER);
    assert_eq!(ip.time_to_live, 64);
    assert_eq!(ip.protocol, 6);
    assert_eq!(tcp.source_port, 443);
    assert_eq!(tcp.destination_port, PEER_PORT);
    assert!(tcp.syn && tcp.ack && !tcp.fin && !tcp.rst);
    assert_eq!(tcp.sequence_number, 0);
    assert_eq!(tcp.acknowledgment_number, 1001);
    assert_eq!(tcp.window_size, 10);
    assert!(payload.is_empty());
    assert_eq!(state(&iface, 443), Some(State::SynRcvd));
    assert_eq!(iface.backlog(443), Some(0));
    assert_eq!(listener.accept(&mut iface).unwrap_err(), Error::WouldBlock);

    let out = iface.receive(&from_peer(443, 1001, 1, &ACK, 4096, &[]));
    assert!(out.is_empty());
    assert_eq!(state(&iface, 443), Some(State::Estab));
    assert_eq!(iface.backlog(443), Some(1));

    let stream = listener.accept(&mut iface).unwrap();
    assert_eq!(stream.quad(), quad(443));
    assert_eq!(iface.backlog(443), Some(0));
}

#[test]
fn data_in_order_is_acknowledged_and_read() {
    let (mut iface, mut stream) = established(443);
    let mut buf = [0u8; 8];
    assert_eq!(stream.read(&mut iface, &mut buf).unwrap_err(), Error::WouldBlock);

    let out = iface.receive(&from_peer(443, 1001, 1, &ACK, 4096, b"hello"));
    assert_eq!(out.len(), 1);
    let (_, tcp, payload) = read_back(&out[0]);
    assert!(tcp.ack && !tcp.syn && !tcp.fin && !tcp.rst);
    assert_eq!(tcp.sequence_number, 1);
    assert_eq!(tcp.acknowledgment_number, 1006);
    assert!(payload.is_empty());

    assert_eq!(stream.read(&mut iface, &mut buf).unwrap(), 5);
    assert_eq!(&buf[..5], b"hello");
    assert_eq!(&buf[5..], &[0, 0, 0]);
    assert_eq!(stream.read(&mut iface, &mut buf).unwrap_err(), Error::WouldBlock);
}

#[test]
fn written_bytes_go_out_at_the_next_sequence_number() {
    let (mut iface, mut stream) = established(443);
    let nxt_at_call = iface.connection(&quad(443)).unwrap().send_space().nxt;
    assert_eq!(nxt_at_call, 1);
    assert_eq!(stream.write(&mut iface, b"abc").unwrap(), 3);
    assert_eq!(iface.connection(&quad(443)).unwrap().unacked_len(), 3);
    assert_eq!(iface.connection(&quad(443)).unwrap().send_space().nxt, 1);

    let out = iface.transmit(&quad(443));
    assert_eq!(out.len(), 1);
    let (_, tcp, payload) = read_back(&out[0]);
    assert_eq!(tcp.sequence_number, nxt_at_call);
    assert_eq!(tcp.acknowledgment_number, 1001);
    assert_eq!(payload, b"abc");
    assert_eq!(iface.connection(&quad(443)).unwrap().send_space().nxt, 4);
    assert_eq!(stream.flush(&iface).unwrap_err(), Error::WouldBlock);

    let out = iface.receive(&from_peer(443, 1001, 4, &ACK, 4096, &[]));
    assert!(out.is_empty());
    assert_eq!(iface.connection(&quad(443)).unwrap().send_space().una, 4);
    assert_eq!(iface.connection(&quad(443)).unwrap().unacked_len(), 0);
    assert_eq!(stream.flush(&iface), Ok(()));
}

#[test]
fn close_runs_through_fin_wait_to_time_wait() {
    let (mut iface, mut stream) = established(443);
    let out = iface.receive(&from_peer(443, 1001, 1, &ACK, 4096, b"hello"));
    assert_eq!(out.len(), 1);

    assert_eq!(stream.shutdown(&mut iface, Shutdown::Write), Ok(()));
    assert_eq!(state(&iface, 443), Some(State::Estab));
    let out = iface.transmit(&quad(443));
    assert_eq!(out.len(), 1);
    let (_, tcp, payload) = read_back(&out[0]);
    assert!(tcp.fin && tcp.ack && !tcp.syn && !tcp.rst);
    assert_eq!(tcp.sequence_number, 1);
    assert_eq!(tcp.acknowledgment_number, 1006);
    assert!(payload.is_empty());
    assert_eq!(state(&iface, 443), Some(State::FinWait1));
    assert_eq!(iface.connection(&quad(443)).unwrap().send_space().nxt, 2);

    let out = iface.receive(&from_peer(443, 1006, 2, &ACK, 4096, &[]));
    assert!(out.is_empty());
    assert_eq!(state(&iface, 443), Some(State::FinWait2));

    let out = iface.receive(&from_peer(443, 1006, 2, &FIN_ACK, 4096, &[]));
    assert_eq!(out.len(), 1);
    let (_, tcp, _) = read_back(&out[0]);
    assert!(tcp.ack && !tcp.fin && !tcp.syn && !tcp.rst);
    assert_eq!(tcp.sequence_number, 2);
    assert_eq!(tcp.acknowledgment_number, 1007);
    assert_eq!(state(&iface, 443), Some(State::TimeWait));

    let mut buf = [0u8; 8];
    assert_eq!(stream.read(&mut iface, &mut buf).unwrap(), 5);
    assert_eq!(stream.read(&mut iface, &mut buf).unwrap(), 0);

    let out = iface.on_timer(&quad(443));
    assert!(out.is_empty());
    assert_eq!(state(&iface, 443), None);
    assert_eq!(stream.read(&mut iface, &mut buf).unwrap_err(), Error::ConnectionAborted);
}

#[test]
fn bad_acknowledgment_before_synchronization_is_reset() {
    let mut iface = Interface::new();
    let mut listener = iface.bind(443).unwrap();
    iface.receive(&from_peer(443, 1000, 0, &SYN, 4096, &[]));
    let out = iface.receive(&from_peer(443, 1001, 7777, &ACK, 4096, &[]));
    assert_eq!(out.len(), 1);
    let (_, tcp, payload) = read_back(&out[0]);
    assert!(tcp.rst);
    assert_eq!(tcp.sequence_number, 7777);
    assert_eq!(tcp.acknowledgment_number, 0);
    assert!(payload.is_empty());
    assert_eq!(state(&iface, 443), None);
    assert_eq!(listener.accept(&mut iface).unwrap_err(), Error::WouldBlock);
}

#[test]
fn acknowledgment_that_leaves_the_syn_open_keeps_syn_rcvd() {
    let mut iface = Interface::new();
    iface.bind(443).unwrap();
    iface.receive(&from_peer(443, 1000, 0, &SYN, 4096, &[]));
    let out = iface.receive(&from_peer(443, 1001, 0, &ACK, 4096, &[]));
    assert!(out.is_empty());
    assert_eq!(state(&iface, 443), Some(State::SynRcvd));
    assert_eq!(iface.backlog(443), Some(0));
}

#[test]
fn bad_acknowledgment_after_synchronization_is_dropped() {
    let (mut iface, _stream) = established(443);
    let out = iface.receive(&from_peer(443, 1001, 9, &ACK, 4096, b"late"));
    assert!(out.is_empty());
    assert_eq!(state(&iface, 443), Some(State::Estab));
    assert_eq!(iface.connection(&quad(443)).unwrap().incoming_len(), 0);
    assert_eq!(iface.connection(&quad(443)).unwrap().recv_space().nxt, 1001);
}

#[test]
fn segment_outside_the_window_is_acknowledged_and_dropped() {
    let (mut iface, _stream) = established(443);
    let out = iface.receive(&from_peer(443, 1000, 1, &ACK, 4096, &[]));
    assert_eq!(out.len(), 1);
    let (_, tcp, _) = read_back(&out[0]);
    assert_eq!(tcp.sequence_number, 1);
    assert_eq!(tcp.acknowledgment_number, 1001);
    let out = iface.receive(&from_peer(443, 1001 + 4096, 1, &ACK, 4096, b"x"));
    assert_eq!(out.len(), 1);
    assert_eq!(iface.connection(&quad(443)).unwrap().incoming_len(), 0);
    let out = iface.receive(&from_peer(443, 1001 + 4095, 1, &ACK, 4096, &[]));
    assert!(out.is_empty());
}

#[test]
fn reset_outside_the_window_is_ignored_and_inside_it_destroys() {
    let (mut iface, mut stream) = established(443);
    let out = iface.receive(&from_peer(443, 900, 0, &RST, 4096, &[]));
    assert!(out.is_empty());
    assert_eq!(state(&iface, 443), Some(State::Estab));
    let out = iface.receive(&from_peer(443, 1001, 0, &RST, 4096, &[]));
    assert!(out.is_empty());
    assert_eq!(state(&iface, 443), None);
    assert_eq!(stream.write(&mut iface, b"x").unwrap_err(), Error::ConnectionAborted);
    assert_eq!(stream.flush(&iface).unwrap_err(), Error::ConnectionAborted);
    assert_eq!(stream.shutdown(&mut iface, Shutdown::Both).unwrap_err(), Error::ConnectionAborted);
}

#[test]
fn segment_without_ack_flag_is_dropped() {
    let (mut iface, _stream) = established(443);
    let none = Flags { syn: false, ack: false, fin: false, rst: false };
    let out = iface.receive(&from_peer(443, 1001, 1, &none, 4096, b"data"));
    assert!(out.is_empty());
    assert_eq!(iface.connection(&quad(443)).unwrap().incoming_len(), 0);
}

#[test]
fn data_ahead_of_a_gap_is_not_taken() {
    let (mut iface, mut stream) = established(443);
    let out = iface.receive(&from_peer(443, 1004, 1, &ACK, 4096, b"def"));
    assert_eq!(out.len(), 1);
    let (_, tcp, _) = read_back(&out[0]);
    assert_eq!(tcp.acknowledgment_number, 1001);
    let out = iface.receive(&from_peer(443, 1001, 1, &ACK, 4096, b"abc"));
    let (_, tcp, _) = read_back(&out[0]);
    assert_eq!(tcp.acknowledgment_number, 1004);
    let out = iface.receive(&from_peer(443, 1001, 1, &ACK, 4096, b"abc"));
    let (_, tcp, _) = read_back(&out[0]);
    assert_eq!(tcp.acknowledgment_number, 1004);
    let out = iface.receive(&from_peer(443, 1004, 1, &ACK, 4096, b"def"));
    let (_, tcp, _) = read_back(&out[0]);
    assert_eq!(tcp.acknowledgment_number, 1007);
    let mut buf = [0u8; 4];
    assert_eq!(stream.read(&mut iface, &mut buf).unwrap(), 4);
    assert_eq!(&buf, b"abcd");
    assert_eq!(stream.read(&mut iface, &mut buf).unwrap(), 2);
    assert_eq!(&buf[..2], b"ef");
}

#[test]
fn syn_for_an_unbound_port_is_dropped() {
    let mut iface = Interface::new();
    iface.bind(443).unwrap();
    let out = iface.receive(&from_peer(80, 1000, 0, &SYN, 4096, &[]));
    assert!(out.is_empty());
    assert!(iface.connection(&quad(80)).is_none());
    let out = iface.receive(&from_peer(443, 1000, 1, &ACK, 4096, &[]));
    assert!(out.is_empty());
    assert!(iface.connection(&quad(443)).is_none());
}

#[test]
fn damaged_and_foreign_datagrams_are_dropped() {
    let mut iface = Interface::new();
    iface.bind(443).unwrap();
    let good = from_peer(443, 1000, 0, &SYN, 4096, &[]);

    let mut bad_checksum = good.clone();
    bad_checksum[36] ^= 0xff;
    assert!(iface.receive(&bad_checksum).is_empty());

    let mut not_tcp = good.clone();
    not_tcp[9] = 17;
    assert!(iface.receive(&not_tcp).is_empty());

    let mut not_ipv4 = good.clone();
    not_ipv4[0] = 0x65;
    assert!(iface.receive(&not_ipv4).is_empty());

    assert!(iface.receive(&good[..30]).is_empty());
    assert!(iface.receive(&[]).is_empty());
    assert!(iface.connection(&quad(443)).is_none());

    assert_eq!(iface.receive(&good).len(), 1);
}

#[test]
fn window_limits_what_is_in_flight() {
    let (mut iface, mut stream) = established(443);
    let data: Vec<u8> = (0..25u8).collect();
    assert_eq!(stream.write(&mut iface, &data).unwrap(), 25);

    let out = iface.transmit(&quad(443));
    assert_eq!(out.len(), 1);
    let (_, tcp, payload) = read_back(&out[0]);
    assert_eq!(tcp.sequence_number, 1);
    assert_eq!(payload, &data[..10]);
    assert!(iface.transmit(&quad(443)).is_empty());

    let out = iface.receive(&from_peer(443, 1001, 5, &ACK, 4096, &[]));
    assert_eq!(out.len(), 1);
    let (_, tcp, payload) = read_back(&out[0]);
    assert_eq!(tcp.sequence_number, 11);
    assert_eq!(payload, &data[10..14]);

    let out = iface.receive(&from_peer(443, 1001, 16, &ACK, 4096, &[]));
    assert!(out.is_empty());
    assert_eq!(iface.connection(&quad(443)).unwrap().send_space().una, 5);

    let out = iface.receive(&from_peer(443, 1001, 15, &ACK, 4096, &[]));
    let (_, tcp, payload) = read_back(&out[0]);
    assert_eq!(tcp.sequence_number, 15);
    assert_eq!(payload, &data[14..24]);

    let out = iface.receive(&from_peer(443, 1001, 25, &ACK, 4096, &[]));
    let (_, tcp, payload) = read_back(&out[0]);
    assert_eq!(tcp.sequence_number, 25);
    assert_eq!(payload, &data[24..25]);

    let out = iface.receive(&from_peer(443, 1001, 26, &ACK, 4096, &[]));
    assert!(out.is_empty());
    assert_eq!(stream.flush(&iface), Ok(()));
    let c = iface.connection(&quad(443)).unwrap();
    assert_eq!(c.send_space().una, 26);
    assert_eq!(c.send_space().nxt, 26);
}

#[test]
fn send_queue_takes_1024_bytes() {
    let (mut iface, mut stream) = established(443);
    let data = vec![7u8; 2000];
    assert_eq!(stream.write(&mut iface, &data).unwrap(), 1024);
    assert_eq!(stream.write(&mut iface, &data).unwrap_err(), Error::WouldBlock);
    assert_eq!(stream.write(&mut iface, &[]).unwrap(), 0);
    iface.transmit(&quad(443));
    iface.receive(&from_peer(443, 1001, 11, &ACK, 4096, &[]));
    assert_eq!(stream.write(&mut iface, &data).unwrap(), 10);
}

#[test]
fn nothing_is_written_after_shutdown() {
    let (mut iface, mut stream) = established(443);
    assert_eq!(stream.shutdown(&mut iface, Shutdown::Read), Ok(()));
    assert!(!iface.connection(&quad(443)).unwrap().is_closing());
    assert_eq!(stream.write(&mut iface, b"ab").unwrap(), 2);
    assert_eq!(stream.shutdown(&mut iface, Shutdown::Both), Ok(()));
    assert!(iface.connection(&quad(443)).unwrap().is_closing());
    assert_eq!(stream.write(&mut iface, b"cd").unwrap(), 0);

    let out = iface.transmit(&quad(443));
    let (_, tcp, payload) = read_back(&out[0]);
    assert!(!tcp.fin);
    assert_eq!(payload, b"ab");
    assert_eq!(state(&iface, 443), Some(State::Estab));
    let out = iface.transmit(&quad(443));
    let (_, tcp, payload) = read_back(&out[0]);
    assert!(tcp.fin);
    assert_eq!(tcp.sequence_number, 3);
    assert!(payload.is_empty());
    assert_eq!(state(&iface, 443), Some(State::FinWait1));

    let out = iface.receive(&from_peer(443, 1001, 3, &ACK, 4096, &[]));
    assert!(out.is_empty());
    assert_eq!(state(&iface, 443), Some(State::FinWait1));
    let out = iface.receive(&from_peer(443, 1001, 4, &ACK, 4096, &[]));
    assert!(out.is_empty());
    assert_eq!(state(&iface, 443), Some(State::FinWait2));
}

#[test]
fn unanswered_segments_are_sent_again_and_then_given_up() {
    let (mut iface, mut stream) = established(443);
    assert!(iface.on_timer(&quad(443)).is_empty());
    stream.write(&mut iface, b"abc").unwrap();
    let first = iface.transmit(&quad(443));
    for _ in 0..5 {
        let again = iface.on_timer(&quad(443));
        assert_eq!(again.len(), 1);
        assert_eq!(again[0], first[0]);
        assert_eq!(state(&iface, 443), Some(State::Estab));
    }
    assert!(iface.on_timer(&quad(443)).is_empty());
    assert_eq!(state(&iface, 443), None);
    assert_eq!(stream.write(&mut iface, b"x").unwrap_err(), Error::ConnectionAborted);
}

#[test]
fn acknowledgment_resets_the_retransmission_count() {
    let (mut iface, mut stream) = established(443);
    stream.write(&mut iface, b"abcdef").unwrap();
    iface.transmit(&quad(443));
    for _ in 0..4 {
        assert_eq!(iface.on_timer(&quad(443)).len(), 1);
    }
    iface.receive(&from_peer(443, 1001, 3, &ACK, 4096, &[]));
    for _ in 0..5 {
        let again = iface.on_timer(&quad(443));
        let (_, tcp, payload) = read_back(&again[0]);
        assert_eq!(tcp.sequence_number, 3);
        assert_eq!(payload, b"cdef");
    }
    assert_eq!(state(&iface, 443), Some(State::Estab));
}

#[test]
fn syn_ack_and_fin_are_sent_again() {
    let mut iface = Interface::new();
    iface.bind(443).unwrap();
    let first = iface.receive(&from_peer(443, 1000, 0, &SYN, 4096, &[]));
    let again = iface.on_timer(&quad(443));
    assert_eq!(again, first);

    let (mut iface, stream) = established(443);
    stream.shutdown(&mut iface, Shutdown::Write).unwrap();
    let fin = iface.transmit(&quad(443));
    let again = iface.on_timer(&quad(443));
    assert_eq!(again, fin);
}

#[test]
fn listener_of_another_interface_is_turned_away() {
    let mut one = Interface::new();
    let mut other = Interface::new();
    let mut listener = one.bind(443).unwrap();
    assert_eq!(listener.accept(&mut other).unwrap_err(), Error::InvalidInput);
}

#[test]
fn connections_are_accepted_in_the_order_of_their_establishment() {
    let mut iface = Interface::new();
    let mut listener = iface.bind(443).unwrap();
    for port in [40001u16, 40002, 40003] {
        let mut tcp = etherparse::TcpHeader::new(port, 443, 5, 100);
        tcp.syn = true;
        let ip = etherparse::Ipv4Header::new(20, 64, etherparse::IpTrafficClass::Tcp, PEER, LOCAL);
        tcp.checksum = tcp.calc_checksum_ipv4(&ip, &[]).unwrap();
        let mut syn = Vec::new();
        ip.write(&mut syn).unwrap();
        tcp.write(&mut syn).unwrap();
        assert_eq!(iface.receive(&syn).len(), 1);
    }
    for port in [40002u16, 40003, 40001] {
        let mut tcp = etherparse::TcpHeader::new(port, 443, 6, 100);
        tcp.ack = true;
        tcp.acknowledgment_number = 1;
        let ip = etherparse::Ipv4Header::new(20, 64, etherparse::IpTrafficClass::Tcp, PEER, LOCAL);
        tcp.checksum = tcp.calc_checksum_ipv4(&ip, &[]).unwrap();
        let mut ack = Vec::new();
        ip.write(&mut ack).unwrap();
        tcp.write(&mut ack).unwrap();
        assert!(iface.receive(&ack).is_empty());
    }
    assert_eq!(iface.backlog(443), Some(3));
    for port in [40002u16, 40003, 40001] {
        assert_eq!(listener.accept(&mut iface).unwrap().quad().src.port, port);
    }
}

#[test]
fn short_buffer_reads_in_pieces() {
    let (mut iface, mut stream) = established(443);
    iface.receive(&from_peer(443, 1001, 1, &ACK, 4096, b"hello world"));
    let mut all = Vec::new();
    let mut buf = [0u8; 4];
    let mut empty: [u8; 0] = [];
    assert_eq!(stream.read(&mut iface, &mut empty).unwrap(), 0);
    while let Ok(n) = stream.read(&mut iface, &mut buf) {
        all.extend_from_slice(&buf[..n]);
    }
    assert_eq!(all, b"hello world");
}

#[test]
fn sequence_numbers_wrap_around() {
    let mut iface = Interface::new();
    let mut listener = iface.bind(443).unwrap();
    let out = iface.receive(&from_peer(443, u32::MAX, 0, &SYN, 4096, &[]));
    let (_, tcp, _) = read_back(&out[0]);
    assert_eq!(tcp.acknowledgment_number, 0);
    iface.receive(&from_peer(443, 0, 1, &ACK, 4096, &[]));
    let mut stream = listener.accept(&mut iface).unwrap();
    let out = iface.receive(&from_peer(443, 0, 1, &ACK, 4096, b"xyz"));
    let (_, tcp, _) = read_back(&out[0]);
    assert_eq!(tcp.acknowledgment_number, 3);
    let mut buf = [0u8; 3];
    assert_eq!(stream.read(&mut iface, &mut buf).unwrap(), 3);
    assert_eq!(&buf, b"xyz");
}
