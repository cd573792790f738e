use tcpstack::tcp::{Connection, State};
use tcpstack::wire::{checksum_verdict, dissect, encode, Inbound, Ipv4Template, SegmentHeader};

fn ones_complement(words: &[u8]) -> u16 {
    let mut sum: u32 = 0;
    let mut i = 0;
    while i < words.len() {
        let hi = words[i] as u32;
        let lo = if i + 1 < words.len() { words[i + 1] as u32 } else { 0 };
        sum += (hi << 8) | lo;
        i += 2;
    }
    while sum >> 16 != 0 {
        sum = (sum & 0xffff) + (sum >> 16);
    }
    !(sum as u16)
}

fn header(seq: u32, ack: u32) -> SegmentHeader {
    SegmentHeader {
        source_port: 443,
        destination_port: 40000,
        sequence_number: seq,
        acknowledgment_number: ack,
        window_size: 10,
        checksum: 0xdead,
        syn: true,
        ack: true,
        fin: false,
        rst: false,
    }
}

#[test]
fn encode_lays_out_both_headers_and_the_payload() {
    let ip = Ipv4Template { source: 0xc0a8_0001, destination: 0xc0a8_0002, time_to_live: 64 };
    let datagram = encode(&ip, &header(0x0102_0304, 0x0a0b_0c0d), b"hi!");
    assert_eq!(datagram.len(), 43);
    assert_eq!(&datagram[..10], &[0x45, 0, 0, 43, 0, 0, 0x40, 0, 64, 6]);
    assert_eq!(&datagram[12..20], &[192, 168, 0, 1, 192, 168, 0, 2]);
    assert_eq!(&datagram[20..24], &[0x01, 0xbb, 0x9c, 0x40]);
    assert_eq!(&datagram[24..32], &[1, 2, 3, 4, 0x0a, 0x0b, 0x0c, 0x0d]);
    assert_eq!(&datagram[32..36], &[0x50, 0x12, 0, 10]);
    assert_eq!(&datagram[38..40], &[0, 0]);
    assert_eq!(&datagram[40..], b"hi!");
}

#[test]
fn encode_fills_in_both_checksums() {
    let ip = Ipv4Template { source: 0xc0a8_0001, destination: 0xc0a8_0002, time_to_live: 64 };
    let datagram = encode(&ip, &header(7, 9), b"odd");
    assert_eq!(ones_complement(&datagram[..20]), 0);
    let mut pseudo = vec![192, 168, 0, 1, 192, 168, 0, 2, 0, 6, 0, 23];
    pseudo.extend_from_slice(&datagram[20..]);
    assert_eq!(ones_complement(&pseudo), 0);
    assert_ne!(&datagram[36..38], &[0xde, 0xad]);
}

#[test]
fn encode_sets_each_flag_bit() {
    let ip = Ipv4Template { source: 1, destination: 2, time_to_live: 64 };
    let mut h = header(0, 0);
    h.syn = false;
    h.ack = false;
    assert_eq!(encode(&ip, &h, &[])[33], 0);
    h.fin = true;
    assert_eq!(encode(&ip, &h, &[])[33], 1);
    h.syn = true;
    assert_eq!(encode(&ip, &h, &[])[33], 3);
    h.rst = true;
    assert_eq!(encode(&ip, &h, &[])[33], 7);
    h.ack = true;
    assert_eq!(encode(&ip, &h, &[])[33], 23);
}

#[test]
fn dissect_reads_what_encode_wrote() {
    let ip = Ipv4Template { source: 0x0a00_0001, destination: 0x0a00_0002, time_to_live: 64 };
    let sent = header(0xffff_fffe, 77);
    let datagram = encode(&ip, &sent, b"payload");
    let inbound = dissect(&datagram).unwrap();
    assert_eq!(inbound.source, 0x0a00_0001);
    assert_eq!(inbound.destination, 0x0a00_0002);
    assert_eq!(inbound.payload_start, 40);
    assert_eq!(inbound.header.source_port, 443);
    assert_eq!(inbound.header.destination_port, 40000);
    assert_eq!(inbound.header.sequence_number, 0xffff_fffe);
    assert_eq!(inbound.header.acknowledgment_number, 77);
    assert_eq!(inbound.header.window_size, 10);
    assert!(inbound.header.syn && inbound.header.ack);
    assert!(!inbound.header.fin && !inbound.header.rst);
    assert_eq!(&datagram[inbound.payload_start..], b"payload");
    let carried = u16::from_be_bytes([datagram[36], datagram[37]]);
    assert_eq!(inbound.header.checksum, carried);
}

#[test]
fn dissect_skips_header_options() {
    let mut tcp = etherparse::TcpHeader::new(1, 2, 3, 4);
    tcp.psh = true;
    tcp.ack = true;
    tcp.set_options_raw(&[2, 4, 5, 0xb4, 1, 1, 1, 0]).unwrap();
    let mut ip = etherparse::Ipv4Header::new(28 + 2, 9, etherparse::IpTrafficClass::Tcp, [1; 4], [2; 4]);
    ip.set_options(&[1, 1, 1, 1]).unwrap();
    tcp.checksum = tcp.calc_checksum_ipv4(&ip, b"ok").unwrap();
    let mut datagram = Vec::new();
    ip.write(&mut datagram).unwrap();
    tcp.write(&mut datagram).unwrap();
    datagram.extend_from_slice(b"ok");
    let inbound = dissect(&datagram).unwrap();
    assert_eq!(inbound.payload_start, 24 + 28);
    assert_eq!(&datagram[inbound.payload_start..], b"ok");
    assert_eq!(inbound.header.sequence_number, 3);
    assert!(inbound.header.ack && !inbound.header.syn);
}

#[test]
fn dissect_drops_what_cannot_be_read() {
    let ip = Ipv4Template { source: 1, destination: 2, time_to_live: 64 };
    let good = encode(&ip, &header(1, 2), b"abcd");
    assert!(dissect(&good).is_some());
    assert!(dissect(&good[..19]).is_none());
    assert!(dissect(&good[..39]).is_none());
    assert!(dissect(&good[..43]).is_none());

    let mut version = good.clone();
    version[0] = 0x55;
    assert!(dissect(&version).is_none());
    let mut short_header = good.clone();
    short_header[0] = 0x44;
    assert!(dissect(&short_header).is_none());
    let mut total_length = good.clone();
    total_length[2] = 0;
    total_length[3] = 19;
    assert!(dissect(&total_length).is_none());
    let mut udp = good.clone();
    udp[9] = 17;
    assert!(dissect(&udp).is_none());
    let mut data_offset = good.clone();
    data_offset[32] = 0x40;
    assert!(dissect(&data_offset).is_none());
    let mut payload = good.clone();
    payload[41] ^= 1;
    assert!(dissect(&payload).is_none());
    let mut address = good.clone();
    address[15] ^= 1;
    assert!(dissect(&address).is_none());
}

#[test]
fn checksum_verdict_compares() {
    let h = header(0, 0);
    assert!(checksum_verdict(&h, 0xdead));
    assert!(!checksum_verdict(&h, 0xdeae));
}

fn syn_from_peer(seq: u32, wnd: u16) -> Inbound {
    Inbound {
        source: 0xc0a8_0002,
        destination: 0xc0a8_0001,
        header: SegmentHeader {
            source_port: 40000,
            destination_port: 443,
            sequence_number: seq,
            acknowledgment_number: 0,
            window_size: wnd,
            checksum: 0,
            syn: true,
            ack: false,
            fin: false,
            rst: false,
        },
        payload_start: 40,
    }
}

#[test]
fn accept_answers_only_a_syn() {
    let mut not_syn = syn_from_peer(5, 100);
    not_syn.header.syn = false;
    not_syn.header.ack = true;
    assert!(Connection::accept(&not_syn, &[]).is_none());

    let (c, syn_ack) = Connection::accept(&syn_from_peer(5, 100), b"ignored").unwrap();
    assert_eq!(c.state(), State::SynRcvd);
    assert_eq!(c.send_space().iss, 0);
    assert_eq!(c.send_space().una, 0);
    assert_eq!(c.send_space().nxt, 1);
    assert_eq!(c.send_space().wnd, 10);
    assert_eq!(c.recv_space().irs, 5);
    assert_eq!(c.recv_space().nxt, 6);
    assert_eq!(c.recv_space().wnd, 100);
    assert_eq!(c.incoming_len(), 0);
    assert_eq!(c.unacked_len(), 0);
    assert!(!c.is_closing());
    assert_eq!(syn_ack.len(), 40);
    let back = dissect(&syn_ack).unwrap();
    assert_eq!(back.source, 0xc0a8_0001);
    assert_eq!(back.destination, 0xc0a8_0002);
    assert!(back.header.syn && back.header.ack);
    assert_eq!(back.header.sequence_number, 0);
    assert_eq!(back.header.acknowledgment_number, 6);
}

#[test]
fn send_rst_says_zero_and_zero() {
    let (mut c, _) = Connection::accept(&syn_from_peer(5, 100), &[]).unwrap();
    let rst = c.send_rst();
    let back = dissect(&rst).unwrap();
    assert!(back.header.rst);
    assert!(!back.header.syn && !back.header.fin);
    assert_eq!(back.header.sequence_number, 0);
    assert_eq!(back.header.acknowledgment_number, 0);
    assert_eq!(rst.len(), 40);
    assert_eq!(c.send_space().nxt, 1);
    assert_eq!(c.state(), State::SynRcvd);
}

#[test]
fn oversized_payload_is_ignored() {
    let (mut c, _) = Connection::accept(&syn_from_peer(5, 100), &[]).unwrap();
    let mut ack = syn_from_peer(6, 100);
    ack.header.syn = false;
    ack.header.ack = true;
    ack.header.acknowledgment_number = 1;
    let r = c.on_packet(&ack, &vec![0u8; 65536]);
    assert!(r.datagram.is_none());
    assert!(!r.destroy);
    assert_eq!(c.state(), State::SynRcvd);
    let r = c.on_packet(&ack, &vec![1u8; 65535]);
    assert!(r.datagram.is_some());
    assert_eq!(c.state(), State::Estab);
    assert_eq!(c.incoming_len(), 65535);
    assert_eq!(c.recv_space().nxt, 6 + 65535);
}

#[test]
fn connection_queues_and_reads() {
    let (mut c, _) = Connection::accept(&syn_from_peer(5, 100), &[]).unwrap();
    assert_eq!(c.queue_outgoing(b"early"), Ok(5));
    assert!(c.transmit().datagram.is_none());
    assert!(!c.is_flushed());
    let mut ack = syn_from_peer(6, 100);
    ack.header.syn = false;
    ack.header.ack = true;
    ack.header.acknowledgment_number = 1;
    assert!(c.on_packet(&ack, b"in").datagram.is_some());
    let mut buf = [0u8; 1];
    assert_eq!(c.read_incoming(&mut buf), Ok(1));
    assert_eq!(buf[0], b'i');
    let sent = c.transmit().datagram.unwrap();
    assert_eq!(&sent[40..], b"early");
    c.close();
    assert!(c.is_closing());
    assert_eq!(c.queue_outgoing(b"late"), Ok(0));
}
