//! The wire format: IPv4 datagrams (20-byte header, no options on the way
//! out) that carry TCP segments (20-byte header, no options on the way out).
//!
//! Headers are parsed, serialised and checksummed by the `etherparse` crate.
//! The functions that call it are the private ones at the end of this file;
//! their contracts are taken on trust from that crate's source. Field layout
//! is stated byte for byte; the two checksum algorithms are only named.

use vstd::prelude::*;

verus! {

/// Length of an IPv4 header without options.
pub const IPV4_HEADER_LEN: usize = 20;

/// Length of a TCP header without options.
pub const TCP_HEADER_LEN: usize = 20;

/// Largest datagram that is ever emitted.
pub const MTU: usize = 1500;

/// Largest payload that fits in one emitted datagram.
pub const MAX_PAYLOAD: usize = MTU - IPV4_HEADER_LEN - TCP_HEADER_LEN;

/// Largest TCP segment (header and payload) that an IPv4 pseudo-header can
/// describe.
pub const MAX_SEGMENT: usize = 65535;

/// IPv4 protocol number of TCP.
pub const PROTOCOL_TCP: u8 = 6;

/// What the stack chooses in the IPv4 header of an outbound datagram.
/// Addresses are the four octets read as one big-endian number.
#[derive(Clone, Copy, Debug, PartialEq, Eq, Structural)]
pub struct Ipv4Template {
    pub source: u32,
    pub destination: u32,
    pub time_to_live: u8,
}

/// What the stack reads from the IPv4 header of an inbound datagram.
#[derive(Clone, Copy, Debug, PartialEq, Eq, Structural)]
pub struct Ipv4Info {
    /// Header length in bytes, options included.
    pub header_len: usize,
    pub protocol: u8,
    pub source: u32,
    pub destination: u32,
}

/// The fields of a TCP header that the stack reads or writes.
#[derive(Clone, Copy, Debug, PartialEq, Eq, Structural)]
pub struct SegmentHeader {
    pub source_port: u16,
    pub destination_port: u16,
    pub sequence_number: u32,
    pub acknowledgment_number: u32,
    pub window_size: u16,
    pub checksum: u16,
    pub syn: bool,
    pub ack: bool,
    pub fin: bool,
    pub rst: bool,
}

/// An inbound datagram taken apart.
#[derive(Clone, Copy, Debug, PartialEq, Eq, Structural)]
pub struct Inbound {
    pub source: u32,
    pub destination: u32,
    pub header: SegmentHeader,
    /// Index in the datagram of the first payload byte.
    pub payload_start: usize,
}

/// The 16-bit number whose big-endian bytes are `hi`, `lo`.
pub open spec fn be16(hi: u8, lo: u8) -> u16 {
    (hi as int * 0x100 + lo as int) as u16
}

/// The 32-bit number whose big-endian bytes are `b0` to `b3`.
pub open spec fn be32(b0: u8, b1: u8, b2: u8, b3: u8) -> u32 {
    (b0 as int * 0x100_0000 + b1 as int * 0x1_0000 + b2 as int * 0x100 + b3 as int) as u32
}

/// Big-endian bytes of a 16-bit number.
pub open spec fn bytes16(x: u16) -> Seq<u8> {
    seq![(x as int / 0x100) as u8, (x as int % 0x100) as u8]
}

/// Big-endian bytes of a 32-bit number.
pub open spec fn bytes32(x: u32) -> Seq<u8> {
    seq![
        (x as int / 0x100_0000) as u8,
        (x as int / 0x1_0000 % 0x100) as u8,
        (x as int / 0x100 % 0x100) as u8,
        (x as int % 0x100) as u8,
    ]
}

// ---------------------------------------------------------------------------
// Inbound: what counts as a header, and what its fields are.

/// Header length, in bytes, that the first byte of an IPv4 header claims.
pub open spec fn ipv4_claimed_len(b: Seq<u8>) -> int {
    (b[0] & 0xf) as int * 4
}

/// Whether `b` starts with an IPv4 header that can be read: version 4, a
/// header of at least five words that lies within `b`, and a total length
/// that covers the header.
pub open spec fn ipv4_readable(b: Seq<u8>) -> bool {
    &&& b.len() >= 20
    &&& b[0] >> 4 == 4
    &&& ipv4_claimed_len(b) >= 20
    &&& b.len() >= ipv4_claimed_len(b)
    &&& be16(b[2], b[3]) >= ipv4_claimed_len(b)
}

/// The fields of the IPv4 header at the start of `b`.
pub open spec fn ipv4_fields(b: Seq<u8>) -> Ipv4Info {
    Ipv4Info {
        header_len: ipv4_claimed_len(b) as usize,
        protocol: b[9],
        source: be32(b[12], b[13], b[14], b[15]),
        destination: be32(b[16], b[17], b[18], b[19]),
    }
}

/// Header length, in bytes, that the data-offset field of a TCP header claims.
pub open spec fn tcp_claimed_len(b: Seq<u8>) -> int {
    ((b[12] & 0xf0) >> 4) as int * 4
}

/// Whether `b` starts with a TCP header that can be read: a header of at
/// least five words that lies within `b`.
pub open spec fn tcp_readable(b: Seq<u8>) -> bool {
    &&& b.len() >= 20
    &&& tcp_claimed_len(b) >= 20
    &&& b.len() >= tcp_claimed_len(b)
}

/// The fields of the TCP header at the start of `b`.
pub open spec fn tcp_fields(b: Seq<u8>) -> SegmentHeader {
    SegmentHeader {
        source_port: be16(b[0], b[1]),
        destination_port: be16(b[2], b[3]),
        sequence_number: be32(b[4], b[5], b[6], b[7]),
        acknowledgment_number: be32(b[8], b[9], b[10], b[11]),
        window_size: be16(b[14], b[15]),
        checksum: be16(b[16], b[17]),
        fin: b[13] & 1 != 0,
        syn: b[13] & 2 != 0,
        rst: b[13] & 4 != 0,
        ack: b[13] & 16 != 0,
    }
}

/// The TCP checksum that a received segment ought to carry: the one's
/// complement sum over the IPv4 pseudo-header (`source`, `destination`,
/// protocol 6, TCP length), the header at the start of `segment` with its
/// checksum field left out, and `payload`.
pub uninterp spec fn received_checksum(
    source: u32,
    destination: u32,
    segment: Seq<u8>,
    payload: Seq<u8>,
) -> u16;

/// Where the TCP segment starts in a datagram with a readable IPv4 header.
pub open spec fn segment_of(d: Seq<u8>) -> Seq<u8> {
    d.subrange(ipv4_claimed_len(d), d.len() as int)
}

/// Where the payload starts in a datagram with readable headers.
pub open spec fn payload_start(d: Seq<u8>) -> int {
    ipv4_claimed_len(d) + tcp_claimed_len(segment_of(d))
}

/// The payload of a datagram with readable headers: all that follows the
/// TCP header.
pub open spec fn payload_of(d: Seq<u8>) -> Seq<u8> {
    d.subrange(payload_start(d), d.len() as int)
}

/// Whether a datagram is taken in: it is IPv4, carries TCP, both headers can
/// be read, the segment is no longer than a pseudo-header can describe, and
/// the TCP checksum is right.
pub open spec fn deliverable(d: Seq<u8>) -> bool {
    &&& ipv4_readable(d)
    &&& ipv4_fields(d).protocol == PROTOCOL_TCP
    &&& tcp_readable(segment_of(d))
    &&& segment_of(d).len() <= MAX_SEGMENT
    &&& tcp_fields(segment_of(d)).checksum == received_checksum(
        ipv4_fields(d).source,
        ipv4_fields(d).destination,
        segment_of(d),
        payload_of(d),
    )
}

/// What a deliverable datagram is taken apart into.
pub open spec fn dissected(d: Seq<u8>) -> Inbound {
    Inbound {
        source: ipv4_fields(d).source,
        destination: ipv4_fields(d).destination,
        header: tcp_fields(segment_of(d)),
        payload_start: payload_start(d) as usize,
    }
}

/// What follows the checksum computation of an inbound segment: the segment
/// is kept exactly when the checksum it carries is the one computed.
pub fn checksum_verdict(header: &SegmentHeader, computed: u16) -> (keep: bool)
    ensures
        keep == (header.checksum == computed),
{
    header.checksum == computed
}

/// Takes an inbound datagram apart. `None` means that the datagram is to be
/// dropped without a trace.
pub fn dissect(datagram: &[u8]) -> (r: Option<Inbound>)
    ensures
        r == if deliverable(datagram@) {
            Some(dissected(datagram@))
        } else {
            None
        },
        r matches Some(i) ==> 40 <= i.payload_start <= datagram@.len(),
{
    let ip = match parse_ipv4(datagram) {
        Some(ip) => ip,
        None => { return None; },
    };
    if ip.protocol != PROTOCOL_TCP {
        return None;
    }
    let segment = vstd::slice::slice_subrange(datagram, ip.header_len, datagram.len());
    let (header, tcp_len) = match parse_tcp(segment) {
        Some(parsed) => parsed,
        None => { return None; },
    };
    if segment.len() > MAX_SEGMENT {
        return None;
    }
    let payload = vstd::slice::slice_subrange(segment, tcp_len, segment.len());
    assert(payload@ == payload_of(datagram@));
    let computed = checksum_of_received(ip.source, ip.destination, segment, payload);
    if !checksum_verdict(&header, computed) {
        return None;
    }
    Some(
        Inbound {
            source: ip.source,
            destination: ip.destination,
            header,
            payload_start: ip.header_len + tcp_len,
        },
    )
}

// ---------------------------------------------------------------------------
// Outbound: the bytes of the headers that are emitted.

/// The checksum of an outbound IPv4 header without options: the one's
/// complement sum over the header that `ipv4_header_wire` lays out, with the
/// checksum field left out.
pub uninterp spec fn ipv4_header_checksum(ip: Ipv4Template, payload_len: u16) -> u16;

/// The TCP checksum of an outbound segment: the one's complement sum over
/// the IPv4 pseudo-header (`source`, `destination`, protocol 6, TCP length),
/// the header that `tcp_header_wire` lays out with its checksum field left
/// out, and `payload`.
pub uninterp spec fn segment_checksum(
    source: u32,
    destination: u32,
    header: SegmentHeader,
    payload: Seq<u8>,
) -> u16;

/// The 20 bytes of an outbound IPv4 header: version 4, five words, no
/// service bits, total length, identification 0, "don't fragment", offset 0,
/// time to live, protocol TCP, header checksum, source, destination.
pub open spec fn ipv4_header_wire(ip: Ipv4Template, payload_len: u16, checksum: u16) -> Seq<u8> {
    seq![0x45u8, 0u8] + bytes16((payload_len + 20) as u16) + seq![0u8, 0u8, 0x40u8, 0u8]
        + seq![ip.time_to_live, PROTOCOL_TCP] + bytes16(checksum) + bytes32(ip.source) + bytes32(
        ip.destination,
    )
}

/// The control bits of an outbound TCP header.
pub open spec fn flag_bits(h: SegmentHeader) -> u8 {
    (if h.fin { 1u8 } else { 0u8 }) | (if h.syn { 2u8 } else { 0u8 }) | (if h.rst { 4u8 } else { 0u8 })
        | (if h.ack { 16u8 } else { 0u8 })
}

/// The 20 bytes of an outbound TCP header: ports, sequence number,
/// acknowledgment number, data offset of five words, control bits, window,
/// checksum, urgent pointer 0.
pub open spec fn tcp_header_wire(h: SegmentHeader) -> Seq<u8> {
    bytes16(h.source_port) + bytes16(h.destination_port) + bytes32(h.sequence_number) + bytes32(
        h.acknowledgment_number,
    ) + seq![0x50u8, flag_bits(h)] + bytes16(h.window_size) + bytes16(h.checksum) + seq![0u8, 0u8]
}

/// `header` with the checksum that the segment needs on the way from
/// `ip.source` to `ip.destination` with `payload`.
pub open spec fn sealed(ip: Ipv4Template, header: SegmentHeader, payload: Seq<u8>) -> SegmentHeader {
    SegmentHeader {
        checksum: segment_checksum(ip.source, ip.destination, header, payload),
        ..header
    }
}

/// The datagram that carries the segment `header`, `payload`: IPv4 header,
/// TCP header with its checksum filled in, payload.
pub open spec fn datagram_wire(ip: Ipv4Template, header: SegmentHeader, payload: Seq<u8>) -> Seq<u8> {
    let tcp_len = (20 + payload.len()) as u16;
    ipv4_header_wire(ip, tcp_len, ipv4_header_checksum(ip, tcp_len)) + tcp_header_wire(
        sealed(ip, header, payload),
    ) + payload
}

/// Builds the datagram that carries one TCP segment. The checksum field of
/// `header` is ignored and computed afresh.
pub fn encode(ip: &Ipv4Template, header: &SegmentHeader, payload: &[u8]) -> (datagram: Vec<u8>)
    requires
        payload@.len() <= MAX_PAYLOAD,
    ensures
        datagram@ == datagram_wire(*ip, *header, payload@),
        datagram@.len() == 40 + payload@.len(),
{
    let payload_len: u16 = (TCP_HEADER_LEN + payload.len()) as u16;
    let checksum = checksum_of_outbound(ip, header, payload);
    let stamped = SegmentHeader {
        source_port: header.source_port,
        destination_port: header.destination_port,
        sequence_number: header.sequence_number,
        acknowledgment_number: header.acknowledgment_number,
        window_size: header.window_size,
        checksum,
        syn: header.syn,
        ack: header.ack,
        fin: header.fin,
        rst: header.rst,
    };
    let mut datagram = ipv4_header_bytes(ip, payload_len);
    let mut tcp = tcp_header_bytes(&stamped);
    datagram.append(&mut tcp);
    let mut i: usize = 0;
    while i < payload.len()
        invariant
            i <= payload@.len(),
            datagram@ == ipv4_header_wire(*ip, payload_len, ipv4_header_checksum(*ip, payload_len))
                + tcp_header_wire(stamped) + payload@.subrange(0, i as int),
        decreases payload@.len() - i,
    {
        datagram.push(payload[i]);
        i += 1;
    }
    assert(payload@.subrange(0, i as int) == payload@);
    datagram
}

/// Reading the big-endian bytes of a number gives the number back.
pub proof fn lemma_bytes_read_back(x: u16, y: u32)
    ensures
        be16(bytes16(x)[0], bytes16(x)[1]) == x,
        be32(bytes32(y)[0], bytes32(y)[1], bytes32(y)[2], bytes32(y)[3]) == y,
{
}

/// Each control bit of an outbound header is read back as it was set.
pub proof fn lemma_flag_bits_read_back(h: SegmentHeader)
    ensures
        (flag_bits(h) & 1 != 0) == h.fin,
        (flag_bits(h) & 2 != 0) == h.syn,
        (flag_bits(h) & 4 != 0) == h.rst,
        (flag_bits(h) & 16 != 0) == h.ack,
{
    let f: u8 = if h.fin { 1u8 } else { 0u8 };
    let s: u8 = if h.syn { 2u8 } else { 0u8 };
    let r: u8 = if h.rst { 4u8 } else { 0u8 };
    let a: u8 = if h.ack { 16u8 } else { 0u8 };
    assert((f == 0 || f == 1) && (s == 0 || s == 2) && (r == 0 || r == 4) && (a == 0 || a == 16)
        ==> (((f | s | r | a) & 1 != 0) == (f == 1) && ((f | s | r | a) & 2 != 0) == (s == 2) && ((f
        | s | r | a) & 4 != 0) == (r == 4) && ((f | s | r | a) & 16 != 0) == (a == 16)))
        by (bit_vector);
}

/// What the stack emits it would itself read as the segment that was meant:
/// both headers of an emitted datagram can be read, the addresses, the
/// protocol and every field of the TCP header come back as they went in,
/// and the payload starts after 40 bytes.
pub proof fn lemma_emitted_datagram_reads_back(
    ip: Ipv4Template,
    header: SegmentHeader,
    payload: Seq<u8>,
)
    requires
        payload.len() <= MAX_PAYLOAD,
    ensures
        ({
            let d = datagram_wire(ip, header, payload);
            &&& d.len() == 40 + payload.len()
            &&& ipv4_readable(d)
            &&& ipv4_fields(d).protocol == PROTOCOL_TCP
            &&& tcp_readable(segment_of(d))
            &&& segment_of(d).len() <= MAX_SEGMENT
            &&& payload_of(d) == payload
            &&& dissected(d) == (Inbound {
                source: ip.source,
                destination: ip.destination,
                header: sealed(ip, header, payload),
                payload_start: 40,
            })
        }),
{
    let d = datagram_wire(ip, header, payload);
    let tcp_len = (20 + payload.len()) as u16;
    let sent = sealed(ip, header, payload);
    let ipw = ipv4_header_wire(ip, tcp_len, ipv4_header_checksum(ip, tcp_len));
    let tcpw = tcp_header_wire(sent);
    assert(ipw.len() == 20 && tcpw.len() == 20);
    assert(d[0] == 0x45u8 && d[9] == PROTOCOL_TCP);
    assert(0x45u8 >> 4 == 4 && 0x45u8 & 0xf == 5) by (bit_vector);
    assert((0x50u8 & 0xf0) >> 4 == 5) by (bit_vector);
    assert(ipv4_claimed_len(d) == 20);
    lemma_bytes_read_back((tcp_len + 20) as u16, ip.source);
    lemma_bytes_read_back(0, ip.destination);
    assert(d[2] == bytes16((tcp_len + 20) as u16)[0] && d[3] == bytes16((tcp_len + 20) as u16)[1]);
    assert(d[12] == bytes32(ip.source)[0] && d[13] == bytes32(ip.source)[1] && d[14] == bytes32(
        ip.source,
    )[2] && d[15] == bytes32(ip.source)[3]);
    assert(d[16] == bytes32(ip.destination)[0] && d[17] == bytes32(ip.destination)[1] && d[18]
        == bytes32(ip.destination)[2] && d[19] == bytes32(ip.destination)[3]);
    let seg = segment_of(d);
    assert(seg =~= tcpw + payload);
    assert(seg[12] == 0x50u8 && seg[13] == flag_bits(sent));
    assert(tcp_claimed_len(seg) == 20);
    assert(payload_of(d) =~= payload);
    assert(seg.subrange(0, 20) =~= tcpw);
    lemma_tcp_header_reads_back(sent, seg);
}

/// A segment that starts with an outbound header reads as that header.
proof fn lemma_tcp_header_reads_back(h: SegmentHeader, seg: Seq<u8>)
    requires
        seg.len() >= 20,
        seg.subrange(0, 20) == tcp_header_wire(h),
    ensures
        tcp_fields(seg) == h,
{
    let w = tcp_header_wire(h);
    assert forall|i: int| 0 <= i < 20 implies seg[i] == w[i] by {
        assert(seg.subrange(0, 20)[i] == seg[i]);
    }
    lemma_bytes_read_back(h.source_port, h.sequence_number);
    lemma_bytes_read_back(h.destination_port, h.acknowledgment_number);
    lemma_bytes_read_back(h.window_size, 0);
    lemma_bytes_read_back(h.checksum, 0);
    lemma_flag_bits_read_back(h);
    assert(w[0] == bytes16(h.source_port)[0] && w[1] == bytes16(h.source_port)[1]);
    assert(w[2] == bytes16(h.destination_port)[0] && w[3] == bytes16(h.destination_port)[1]);
    assert(w[4] == bytes32(h.sequence_number)[0] && w[5] == bytes32(h.sequence_number)[1] && w[6]
        == bytes32(h.sequence_number)[2] && w[7] == bytes32(h.sequence_number)[3]);
    assert(w[8] == bytes32(h.acknowledgment_number)[0] && w[9] == bytes32(
        h.acknowledgment_number,
    )[1] && w[10] == bytes32(h.acknowledgment_number)[2] && w[11] == bytes32(
        h.acknowledgment_number,
    )[3]);
    assert(w[13] == flag_bits(h));
    assert(w[14] == bytes16(h.window_size)[0] && w[15] == bytes16(h.window_size)[1]);
    assert(w[16] == bytes16(h.checksum)[0] && w[17] == bytes16(h.checksum)[1]);
}

// ---------------------------------------------------------------------------
// The calls into etherparse.

/// `etherparse::Ipv4HeaderSlice::from_slice` and the accessors `slice`,
/// `protocol`, `source_addr` and `destination_addr`. The contract says when
/// that function accepts a slice (length, version nibble, header-length
/// nibble, total-length field) and at which offsets the accessors read.
#[verifier::external_body]
fn parse_ipv4(bytes: &[u8]) -> (r: Option<Ipv4Info>)
    ensures
        r == if ipv4_readable(bytes@) {
            Some(ipv4_fields(bytes@))
        } else {
            None
        },
        r matches Some(ip) ==> 20 <= ip.header_len <= bytes@.len(),
{
    let h = etherparse::Ipv4HeaderSlice::from_slice(bytes).ok()?;
    Some(
        Ipv4Info {
            header_len: h.slice().len(),
            protocol: h.protocol(),
            source: u32::from(h.source_addr()),
            destination: u32::from(h.destination_addr()),
        },
    )
}

/// `etherparse::TcpHeaderSlice::from_slice` and its field accessors. The
/// contract says when that function accepts a slice (length, data-offset
/// nibble) and at which offsets and bits the accessors read. The second
/// component is the header's length in bytes.
#[verifier::external_body]
fn parse_tcp(bytes: &[u8]) -> (r: Option<(SegmentHeader, usize)>)
    ensures
        r == if tcp_readable(bytes@) {
            Some((tcp_fields(bytes@), tcp_claimed_len(bytes@) as usize))
        } else {
            None
        },
        r matches Some(p) ==> 20 <= p.1 <= bytes@.len(),
{
    let h = etherparse::TcpHeaderSlice::from_slice(bytes).ok()?;
    let (syn, ack, fin, rst) = (h.syn(), h.ack(), h.fin(), h.rst());
    let header = SegmentHeader {
        source_port: h.source_port(),
        destination_port: h.destination_port(),
        sequence_number: h.sequence_number(),
        acknowledgment_number: h.acknowledgment_number(),
        window_size: h.window_size(),
        checksum: h.checksum(),
        syn, ack, fin, rst,
    };
    Some((header, h.slice().len()))
}

/// `etherparse::TcpHeaderSlice::calc_checksum_ipv4_raw`, on the header at
/// the start of `segment`. That function fails only when header and payload
/// together exceed 65535 bytes. Its result is named, not stated.
#[verifier::external_body]
fn checksum_of_received(source: u32, destination: u32, segment: &[u8], payload: &[u8]) -> (sum: u16)
    requires
        tcp_readable(segment@),
        tcp_claimed_len(segment@) + payload@.len() <= MAX_SEGMENT,
    ensures
        sum == received_checksum(source, destination, segment@, payload@),
{
    let header = etherparse::TcpHeaderSlice::from_slice(segment).expect("readable header");
    let (from, to) = (source.to_be_bytes(), destination.to_be_bytes());
    header.calc_checksum_ipv4_raw(&from, &to, payload).expect("segment within limit")
}

/// `etherparse::TcpHeader::calc_checksum_ipv4_raw`, on a header without
/// options. That function fails only when header and payload together
/// exceed 65535 bytes. Its result is named, not stated.
#[verifier::external_body]
fn checksum_of_outbound(ip: &Ipv4Template, header: &SegmentHeader, payload: &[u8]) -> (sum: u16)
    requires
        20 + payload@.len() <= MAX_SEGMENT,
    ensures
        sum == segment_checksum(ip.source, ip.destination, *header, payload@),
{
    let (from, to) = (header.source_port, header.destination_port);
    let mut h = etherparse::TcpHeader::new(from, to, header.sequence_number, header.window_size);
    h.acknowledgment_number = header.acknowledgment_number;
    (h.syn, h.ack, h.fin, h.rst) = (header.syn, header.ack, header.fin, header.rst);
    let (source, destination) = (ip.source.to_be_bytes(), ip.destination.to_be_bytes());
    h.calc_checksum_ipv4_raw(source, destination, payload).expect("segment within limit")
}

/// `etherparse::Ipv4Header::new` and `etherparse::Ipv4Header::write`. The
/// latter fails only when the payload length exceeds 65515; it computes the
/// header checksum itself, which is named, and lays the fields out as
/// `ipv4_header_wire` states.
#[verifier::external_body]
fn ipv4_header_bytes(ip: &Ipv4Template, payload_len: u16) -> (bytes: Vec<u8>)
    requires
        payload_len <= 65515,
    ensures
        bytes@ == ipv4_header_wire(*ip, payload_len, ipv4_header_checksum(*ip, payload_len)),
        bytes@.len() == 20,
{
    let (source, destination) = (ip.source.to_be_bytes(), ip.destination.to_be_bytes());
    let protocol = etherparse::IpTrafficClass::Tcp;
    let header = etherparse::Ipv4Header::new(payload_len, ip.time_to_live, protocol, source, destination);
    let mut bytes = Vec::with_capacity(20);
    header.write(&mut bytes).expect("payload length within limit");
    bytes
}

/// `etherparse::TcpHeader::new` and `etherparse::TcpHeader::write`. The
/// latter writes the checksum field as it stands and lays the fields out as
/// `tcp_header_wire` states; into a vector it cannot fail.
#[verifier::external_body]
fn tcp_header_bytes(header: &SegmentHeader) -> (bytes: Vec<u8>)
    ensures
        bytes@ == tcp_header_wire(*header),
        bytes@.len() == 20,
{
    let (from, to) = (header.source_port, header.destination_port);
    let mut h = etherparse::TcpHeader::new(from, to, header.sequence_number, header.window_size);
    h.acknowledgment_number = header.acknowledgment_number;
    h.checksum = header.checksum;
    (h.syn, h.ack, h.fin, h.rst) = (header.syn, header.ack, header.fin, header.rst);
    let mut bytes = Vec::with_capacity(20);
    h.write(&mut bytes).expect("writing to a vector");
    bytes
}

} // verus!
