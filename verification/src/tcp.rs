//! The state machine of one TCP connection.
//!
//! A connection never touches the network. Whatever it has to say it hands
//! back as the bytes of a datagram, and whoever owns the connection sends
//! them.
//!
//! The initial send sequence number is always 0. That does not comply with
//! RFC 6528, which asks for a number that an off-path attacker cannot guess;
//! a random or clock-driven choice can take its place without any other
//! change.

use crate::error::Error;
use crate::seqnum::{distance, is_between_wrapped, seq_add, strictly_between};
use crate::wire::{
    datagram_wire, encode, Inbound, Ipv4Template, SegmentHeader, MAX_PAYLOAD, MAX_SEGMENT,
};
use std::collections::VecDeque;
use vstd::prelude::*;

verus! {

/// Initial send sequence number of every connection.
pub const INITIAL_SEND_SEQUENCE: u32 = 0;

/// The send window that a new connection starts with, and the receive
/// window that its segments advertise.
pub const INITIAL_WINDOW: u16 = 10;

/// Time to live of every emitted datagram.
pub const TIME_TO_LIVE: u8 = 64;

/// How many bytes the queue of unacknowledged outbound data holds at most.
pub const SEND_QUEUE_CAPACITY: usize = 1024;

/// How often the oldest outstanding segment is sent again before the
/// connection is given up.
pub const MAX_RETRANSMISSIONS: u8 = 5;

/// The protocol state of a connection. `Closed` and `Listen` never occur: a
/// connection exists only from the moment a SYN has been answered.
#[derive(Clone, Copy, Debug, PartialEq, Eq, Structural)]
pub enum State {
    SynRcvd,
    Estab,
    FinWait1,
    FinWait2,
    TimeWait,
}

impl State {
    /// Both sides have exchanged their initial sequence numbers.
    pub open spec fn synchronized(self) -> bool {
        self != State::SynRcvd
    }

    /// The local side has sent its FIN.
    pub open spec fn beyond_estab(self) -> bool {
        self == State::FinWait1 || self == State::FinWait2 || self == State::TimeWait
    }

    /// Whether both sides have exchanged their initial sequence numbers.
    pub fn is_synchronized(&self) -> (r: bool)
        ensures
            r == self.synchronized(),
    {
        match *self {
            State::SynRcvd => false,
            State::Estab | State::FinWait1 | State::FinWait2 | State::TimeWait => true,
        }
    }

    /// Whether the local side has sent its FIN.
    pub fn is_beyond_estab(&self) -> (r: bool)
        ensures
            r == self.beyond_estab(),
    {
        match *self {
            State::SynRcvd | State::Estab => false,
            State::FinWait1 | State::FinWait2 | State::TimeWait => true,
        }
    }
}

/// Send sequence space (RFC 793, section 3.2).
///
/// ```text
///            1         2          3          4
///       ----------|----------|----------|----------
///              SND.UNA    SND.NXT    SND.UNA
///                                   +SND.WND
/// ```
#[derive(Clone, Copy, Debug, PartialEq, Eq, Structural)]
pub struct SendSequenceSpace {
    /// Oldest sequence number not yet acknowledged.
    pub una: u32,
    /// Next sequence number to send.
    pub nxt: u32,
    /// Send window.
    pub wnd: u16,
    /// Urgent pointer in use; always false.
    pub up: bool,
    /// Sequence number of the segment used for the last window update.
    pub wl1: u32,
    /// Acknowledgment number of the segment used for the last window update.
    pub wl2: u32,
    /// Initial send sequence number.
    pub iss: u32,
}

/// Receive sequence space (RFC 793, section 3.2).
///
/// ```text
///                1          2          3
///            ----------|----------|----------
///                   RCV.NXT    RCV.NXT
///                             +RCV.WND
/// ```
#[derive(Clone, Copy, Debug, PartialEq, Eq, Structural)]
pub struct RecvSequenceSpace {
    /// Next sequence number expected.
    pub nxt: u32,
    /// Receive window.
    pub wnd: u16,
    /// Urgent pointer in use; always false.
    pub up: bool,
    /// Initial receive sequence number.
    pub irs: u32,
}

/// One TCP connection: its state, both sequence spaces, the header templates
/// of the segments it emits, and the two byte queues.
pub struct Connection {
    state: State,
    send: SendSequenceSpace,
    recv: RecvSequenceSpace,
    ip: Ipv4Template,
    tcp: SegmentHeader,
    incoming: VecDeque<u8>,
    unacked: VecDeque<u8>,
    closing: bool,
    retries: u8,
}

/// What a connection is, as a mathematical value.
#[verifier::ext_equal]
pub struct ConnectionView {
    pub state: State,
    pub send: SendSequenceSpace,
    pub recv: RecvSequenceSpace,
    /// Template of the IPv4 header: local address as source, TTL 64.
    pub ip: Ipv4Template,
    /// Template of the TCP header: local port as source; the flags that
    /// the next segment carries.
    pub tcp: SegmentHeader,
    /// Bytes received in order and not yet read by the application.
    pub incoming: Seq<u8>,
    /// Bytes written by the application and not yet acknowledged by the
    /// peer. The first of them has sequence number `send.una`.
    pub unacked: Seq<u8>,
    /// The application has asked to close the connection.
    pub closing: bool,
    /// How often the oldest outstanding segment has been sent again.
    pub retries: u8,
}

/// What the owner of a connection has to do after an event.
#[derive(Debug)]
pub struct Reaction {
    /// The datagram to send, if any.
    pub datagram: Option<Vec<u8>>,
    /// Whether the connection is over and is to be forgotten.
    pub destroy: bool,
}

/// 1 for a flag that is set, 0 for one that is not.
pub open spec fn flag(b: bool) -> int {
    if b {
        1
    } else {
        0
    }
}

/// How many sequence numbers a segment occupies: its payload, and one each
/// for SYN and FIN.
pub open spec fn segment_len(h: SegmentHeader, payload_len: int) -> int {
    payload_len + flag(h.syn) + flag(h.fin)
}

/// The acceptability test for an inbound segment (RFC 793, section 3.3) of
/// `slen` sequence numbers starting at `seq`, against the receive window of
/// `wnd` numbers starting at `nxt`.
pub open spec fn segment_acceptable(nxt: u32, wnd: u16, seq: u32, slen: int) -> bool {
    let before = seq_add(nxt, -1);
    let wend = seq_add(nxt, wnd as int);
    if slen == 0 {
        if wnd == 0 {
            seq == nxt
        } else {
            strictly_between(before, seq, wend)
        }
    } else {
        wnd > 0 && (strictly_between(before, seq, wend) || strictly_between(
            before,
            seq_add(seq, slen - 1),
            wend,
        ))
    }
}

/// The test for an acknowledgment number: `una <= ack <= nxt` on the circle.
pub open spec fn ack_acceptable(una: u32, nxt: u32, ack: u32) -> bool {
    strictly_between(seq_add(una, -1), ack, seq_add(nxt, 1))
}

impl ConnectionView {
    /// How many sequence numbers have been sent and not yet acknowledged.
    pub open spec fn in_flight(self) -> int {
        distance(self.send.una, self.send.nxt)
    }

    /// The invariant of a connection.
    ///
    /// `una <= nxt <= una + wnd` on the circle; the queue of unacknowledged
    /// bytes is within its capacity; between two operations the header
    /// template carries ACK and neither SYN nor FIN; and what is in flight
    /// is the SYN in `SynRcvd`, a prefix of the unacknowledged bytes in
    /// `Estab`, all of them and the FIN in `FinWait1`, nothing afterwards.
    pub open spec fn wf(self) -> bool {
        &&& self.in_flight() <= self.send.wnd
        &&& self.unacked.len() <= SEND_QUEUE_CAPACITY
        &&& self.retries <= MAX_RETRANSMISSIONS
        &&& self.tcp.ack
        &&& !self.tcp.syn
        &&& !self.tcp.fin
        &&& match self.state {
            State::SynRcvd => self.send.una == self.send.iss && self.in_flight() == 1,
            State::Estab => self.in_flight() <= self.unacked.len(),
            State::FinWait1 => self.closing && self.in_flight() == self.unacked.len() + 1,
            State::FinWait2 | State::TimeWait => self.closing && self.in_flight() == 0
                && self.unacked.len() == 0,
        }
    }

    /// The header of the next segment: the template, stamped with the next
    /// sequence number to send and the next one expected.
    pub open spec fn stamped(self) -> SegmentHeader {
        SegmentHeader {
            sequence_number: self.send.nxt,
            acknowledgment_number: self.recv.nxt,
            ..self.tcp
        }
    }

    /// The connection after a segment with `sent` payload bytes has been
    /// emitted: `send.nxt` has moved past the payload and past SYN and FIN
    /// if the segment carried them, and the template has lost both flags.
    pub open spec fn written(self, sent: int) -> ConnectionView {
        ConnectionView {
            send: SendSequenceSpace {
                nxt: seq_add(self.send.nxt, segment_len(self.tcp, sent)),
                ..self.send
            },
            tcp: SegmentHeader { syn: false, fin: false, ..self.stamped() },
            ..self
        }
    }

    /// The connection after the peer has acknowledged everything before
    /// `ack`, which passes `ack_acceptable`: `send.una` is `ack`, the
    /// acknowledged bytes have left the queue, and where all that was in
    /// flight is acknowledged `SynRcvd` has become `Estab` and `FinWait1`
    /// has become `FinWait2`.
    pub open spec fn acknowledged(self, ack: u32) -> ConnectionView {
        let d = distance(self.send.una, ack);
        let all = ack == self.send.nxt;
        ConnectionView {
            state: match self.state {
                State::SynRcvd if all => State::Estab,
                State::FinWait1 if all => State::FinWait2,
                s => s,
            },
            send: SendSequenceSpace { una: ack, ..self.send },
            unacked: match self.state {
                State::Estab => self.unacked.skip(d),
                State::FinWait1 => if all {
                    Seq::empty()
                } else {
                    self.unacked.skip(d)
                },
                _ => self.unacked,
            },
            retries: if d > 0 {
                0
            } else {
                self.retries
            },
            ..self
        }
    }

    /// Whether the connection takes what an acceptable segment carries: it
    /// is synchronized, has not seen the peer's FIN, and the segment starts
    /// at the next sequence number expected.
    pub open spec fn takes(self, h: SegmentHeader) -> bool {
        &&& self.state == State::Estab || self.state == State::FinWait1 || self.state
            == State::FinWait2
        &&& h.sequence_number == self.recv.nxt
    }

    /// Whether the connection takes the FIN of a segment that it takes: only
    /// in `FinWait2`.
    pub open spec fn takes_fin(self, h: SegmentHeader) -> bool {
        self.takes(h) && h.fin && self.state == State::FinWait2
    }

    /// The connection after it has taken in the segment `h`, `data`, as far
    /// as it takes it: the payload is appended to `incoming`, `recv.nxt` has
    /// moved past the segment, and a FIN taken leads to `TimeWait`.
    pub open spec fn received(self, h: SegmentHeader, data: Seq<u8>) -> ConnectionView {
        if self.takes(h) {
            ConnectionView {
                state: if self.takes_fin(h) {
                    State::TimeWait
                } else {
                    self.state
                },
                recv: RecvSequenceSpace {
                    nxt: seq_add(
                        self.recv.nxt,
                        data.len() + flag(h.syn) + flag(self.takes_fin(h)),
                    ),
                    ..self.recv
                },
                incoming: self.incoming + data,
                ..self
            }
        } else {
            self
        }
    }

    /// The connection after a reset with sequence number `seq` has been
    /// emitted: the template carries RST and the numbers of that segment.
    pub open spec fn reset(self, seq: u32) -> ConnectionView {
        ConnectionView {
            tcp: SegmentHeader {
                rst: true,
                sequence_number: seq,
                acknowledgment_number: 0,
                ..self.tcp
            },
            ..self
        }
    }
}

/// The connection that answers the SYN `inbound`, before it has said
/// anything: addresses and ports swapped, `iss` 0, send window 10, the
/// peer's sequence number and window taken over, SYN and ACK set in the
/// template.
pub open spec fn greeting(inbound: Inbound) -> ConnectionView {
    ConnectionView {
        state: State::SynRcvd,
        send: SendSequenceSpace {
            iss: INITIAL_SEND_SEQUENCE,
            una: INITIAL_SEND_SEQUENCE,
            nxt: INITIAL_SEND_SEQUENCE,
            wnd: INITIAL_WINDOW,
            up: false,
            wl1: 0,
            wl2: 0,
        },
        recv: RecvSequenceSpace {
            irs: inbound.header.sequence_number,
            nxt: seq_add(inbound.header.sequence_number, 1),
            wnd: inbound.header.window_size,
            up: false,
        },
        ip: Ipv4Template {
            source: inbound.destination,
            destination: inbound.source,
            time_to_live: TIME_TO_LIVE,
        },
        tcp: SegmentHeader {
            source_port: inbound.header.destination_port,
            destination_port: inbound.header.source_port,
            sequence_number: INITIAL_SEND_SEQUENCE,
            acknowledgment_number: 0,
            window_size: INITIAL_WINDOW,
            checksum: 0,
            syn: true,
            ack: true,
            fin: false,
            rst: false,
        },
        incoming: Seq::empty(),
        unacked: Seq::empty(),
        closing: false,
        retries: 0,
    }
}

impl View for Connection {
    type V = ConnectionView;

    closed spec fn view(&self) -> ConnectionView {
        ConnectionView {
            state: self.state,
            send: self.send,
            recv: self.recv,
            ip: self.ip,
            tcp: self.tcp,
            incoming: self.incoming@,
            unacked: self.unacked@,
            closing: self.closing,
            retries: self.retries,
        }
    }
}

impl Connection {
    /// The invariant of a connection; see `ConnectionView::wf`.
    pub open spec fn wf(&self) -> bool {
        self@.wf()
    }

    /// The protocol state.
    pub fn state(&self) -> (r: State)
        ensures
            r == self@.state,
    {
        self.state
    }

    /// The send sequence space.
    pub fn send_space(&self) -> (r: SendSequenceSpace)
        ensures
            r == self@.send,
    {
        self.send
    }

    /// The receive sequence space.
    pub fn recv_space(&self) -> (r: RecvSequenceSpace)
        ensures
            r == self@.recv,
    {
        self.recv
    }

    /// How many received bytes wait to be read.
    pub fn incoming_len(&self) -> (r: usize)
        ensures
            r == self@.incoming.len(),
    {
        self.incoming.len()
    }

    /// How many written bytes wait to be acknowledged.
    pub fn unacked_len(&self) -> (r: usize)
        ensures
            r == self@.unacked.len(),
    {
        self.unacked.len()
    }

    /// Whether the application has asked to close the connection.
    pub fn is_closing(&self) -> (r: bool)
        ensures
            r == self@.closing,
    {
        self.closing
    }

    /// Answers a SYN with a new connection in `SynRcvd` and the SYN/ACK to
    /// send: sequence number `iss`, acknowledgment number one past the
    /// peer's, window 10. A segment without SYN is answered with nothing.
    pub fn accept(inbound: &Inbound, _data: &[u8]) -> (r: Option<(Connection, Vec<u8>)>)
        ensures
            r is Some <==> inbound.header.syn,
            r matches Some((c, syn_ack)) ==> {
                &&& c@ == greeting(*inbound).written(0)
                &&& syn_ack@ == datagram_wire(
                    greeting(*inbound).ip,
                    greeting(*inbound).stamped(),
                    Seq::empty(),
                )
                &&& c.wf()
            },
    {
        if !inbound.header.syn {
            return None;
        }
        let iss: u32 = INITIAL_SEND_SEQUENCE;
        let wnd: u16 = INITIAL_WINDOW;
        let mut c = Connection {
            state: State::SynRcvd,
            send: SendSequenceSpace { iss, una: iss, nxt: iss, wnd, up: false, wl1: 0, wl2: 0 },
            recv: RecvSequenceSpace {
                irs: inbound.header.sequence_number,
                nxt: inbound.header.sequence_number.wrapping_add(1),
                wnd: inbound.header.window_size,
                up: false,
            },
            ip: Ipv4Template {
                source: inbound.destination,
                destination: inbound.source,
                time_to_live: TIME_TO_LIVE,
            },
            tcp: SegmentHeader {
                source_port: inbound.header.destination_port,
                destination_port: inbound.header.source_port,
                sequence_number: iss,
                acknowledgment_number: 0,
                window_size: wnd,
                checksum: 0,
                syn: true,
                ack: true,
                fin: false,
                rst: false,
            },
            incoming: VecDeque::new(),
            unacked: VecDeque::new(),
            closing: false,
            retries: 0,
        };
        assert(c@ == greeting(*inbound));
        let nothing: Vec<u8> = Vec::new();
        let syn_ack = c.write(nothing.as_slice());
        assert(nothing@.take(0) == Seq::<u8>::empty());
        Some((c, syn_ack))
    }

    /// Emits one segment with as much of `payload` as a datagram holds, under
    /// the header template stamped with `send.nxt` and `recv.nxt`. Afterwards
    /// `send.nxt` has moved past what was sent, and the template carries
    /// neither SYN nor FIN.
    pub(crate) fn write(&mut self, payload: &[u8]) -> (datagram: Vec<u8>)
        ensures
            datagram@ == datagram_wire(
                old(self)@.ip,
                old(self)@.stamped(),
                payload@.take(carried(payload@.len() as int)),
            ),
            final(self)@ == old(self)@.written(carried(payload@.len() as int)),
    {
        let n: usize = if payload.len() < MAX_PAYLOAD {
            payload.len()
        } else {
            MAX_PAYLOAD
        };
        self.tcp.sequence_number = self.send.nxt;
        self.tcp.acknowledgment_number = self.recv.nxt;
        let chunk = vstd::slice::slice_subrange(payload, 0, n);
        let datagram = encode(&self.ip, &self.tcp, chunk);
        proof {
            crate::seqnum::lemma_seq_add_is_wrapping(self.send.nxt, n as u32);
            crate::seqnum::lemma_seq_add_is_wrapping(self.send.nxt.wrapping_add(n as u32), 1);
            crate::seqnum::lemma_seq_add_is_wrapping(
                self.send.nxt.wrapping_add(n as u32).wrapping_add(1),
                1,
            );
        }
        self.send.nxt = self.send.nxt.wrapping_add(n as u32);
        if self.tcp.syn {
            self.send.nxt = self.send.nxt.wrapping_add(1);
            self.tcp.syn = false;
        }
        if self.tcp.fin {
            self.send.nxt = self.send.nxt.wrapping_add(1);
            self.tcp.fin = false;
        }
        datagram
    }

    /// Emits a reset: RST set, sequence number 0, acknowledgment number 0,
    /// no payload. The sequence space is left as it is.
    pub fn send_rst(&mut self) -> (datagram: Vec<u8>)
        requires
            old(self).wf(),
        ensures
            datagram@ == datagram_wire(old(self)@.ip, old(self)@.reset(0).tcp, Seq::empty()),
            final(self)@ == old(self)@.reset(0),
            final(self).wf(),
    {
        self.send_reset(0)
    }

    /// Emits a reset with the given sequence number.
    fn send_reset(&mut self, seq: u32) -> (datagram: Vec<u8>)
        ensures
            datagram@ == datagram_wire(old(self)@.ip, old(self)@.reset(seq).tcp, Seq::empty()),
            final(self)@ == old(self)@.reset(seq),
    {
        self.tcp.rst = true;
        self.tcp.sequence_number = seq;
        self.tcp.acknowledgment_number = 0;
        let nothing: Vec<u8> = Vec::new();
        encode(&self.ip, &self.tcp, nothing.as_slice())
    }
}

/// A segment that a connection emits.
pub struct Emission {
    pub header: SegmentHeader,
    pub payload: Seq<u8>,
}

/// What an event does to a connection.
pub struct Step {
    /// The connection afterwards.
    pub next: ConnectionView,
    /// The segment that the connection emits, if any.
    pub reply: Option<Emission>,
    /// Whether the connection is over.
    pub destroy: bool,
}

/// A segment without payload.
pub open spec fn bare(header: SegmentHeader) -> Emission {
    Emission { header, payload: Seq::empty() }
}

/// Nothing happens.
pub open spec fn ignore(c: ConnectionView) -> Step {
    Step { next: c, reply: None, destroy: false }
}

/// The connection says where it stands: an empty segment with the current
/// `send.nxt` and `recv.nxt`.
pub open spec fn acknowledge(c: ConnectionView) -> Step {
    Step { next: c.written(0), reply: Some(bare(c.stamped())), destroy: false }
}

/// What the segment `h`, `data` does to the connection `c`.
///
/// - A payload longer than an IPv4 datagram holds: ignored.
/// - A segment that fails the acceptability test: acknowledged, unless it
///   carries RST, in which case it is ignored.
/// - An acceptable RST: the connection is over.
/// - No ACK flag: ignored.
/// - An acknowledgment number that fails the test: ignored in a
///   synchronized state; before that it is answered with a reset whose
///   sequence number is that acknowledgment number, and the connection is
///   over.
/// - Otherwise the acknowledgment is processed, then the segment is taken
///   in, and if it occupied any sequence number it is acknowledged.
pub open spec fn step_on_packet(c: ConnectionView, h: SegmentHeader, data: Seq<u8>) -> Step {
    let slen = segment_len(h, data.len() as int);
    if data.len() > MAX_SEGMENT {
        ignore(c)
    } else if !segment_acceptable(c.recv.nxt, c.recv.wnd, h.sequence_number, slen) {
        if h.rst {
            ignore(c)
        } else {
            acknowledge(c)
        }
    } else if h.rst {
        Step { next: c, reply: None, destroy: true }
    } else if !h.ack {
        ignore(c)
    } else if !ack_acceptable(c.send.una, c.send.nxt, h.acknowledgment_number) {
        if c.state.synchronized() {
            ignore(c)
        } else {
            Step {
                next: c.reset(h.acknowledgment_number),
                reply: Some(bare(c.reset(h.acknowledgment_number).tcp)),
                destroy: true,
            }
        }
    } else {
        let taken = c.acknowledged(h.acknowledgment_number).received(h, data);
        if slen > 0 {
            acknowledge(taken)
        } else {
            ignore(taken)
        }
    }
}

/// Whether `r` is what the step `s` of a connection with IPv4 template `ip`
/// asks for.
pub open spec fn reaction_matches(r: Reaction, ip: Ipv4Template, s: Step) -> bool {
    &&& r.destroy == s.destroy
    &&& match r.datagram {
        Some(d) => s.reply matches Some(e) && d@ == datagram_wire(ip, e.header, e.payload),
        None => s.reply is None,
    }
}

/// The acceptability test for an inbound segment of `slen` sequence numbers
/// starting at `seqn`, against the receive window of `wnd` numbers starting
/// at `nxt`.
pub fn is_segment_acceptable(nxt: u32, wnd: u16, seqn: u32, slen: u32) -> (r: bool)
    ensures
        r == segment_acceptable(nxt, wnd, seqn, slen as int),
{
    proof {
        crate::seqnum::lemma_seq_add_is_wrapping(nxt, 1);
        crate::seqnum::lemma_seq_add_is_wrapping(nxt, wnd as u32);
        if slen > 0 {
            crate::seqnum::lemma_seq_add_is_wrapping(seqn, (slen - 1) as u32);
        }
    }
    let before: u32 = nxt.wrapping_sub(1);
    let wend: u32 = nxt.wrapping_add(wnd as u32);
    if slen == 0 {
        if wnd == 0 {
            seqn == nxt
        } else {
            is_between_wrapped(before, seqn, wend)
        }
    } else {
        wnd > 0 && (is_between_wrapped(before, seqn, wend) || is_between_wrapped(
            before,
            seqn.wrapping_add(slen - 1),
            wend,
        ))
    }
}

/// The test for the acknowledgment number `ackn` against what is in flight
/// from `una` to `nxt`.
pub fn is_ack_acceptable(una: u32, nxt: u32, ackn: u32) -> (r: bool)
    ensures
        r == ack_acceptable(una, nxt, ackn),
{
    proof {
        crate::seqnum::lemma_seq_add_is_wrapping(una, 1);
        crate::seqnum::lemma_seq_add_is_wrapping(nxt, 1);
    }
    is_between_wrapped(una.wrapping_sub(1), ackn, nxt.wrapping_add(1))
}

impl Connection {
    /// Handles one inbound segment of this connection; see `step_on_packet`.
    pub fn on_packet(&mut self, inbound: &Inbound, data: &[u8]) -> (r: Reaction)
        requires
            old(self).wf(),
        ensures
            final(self).wf(),
            final(self)@ == step_on_packet(old(self)@, inbound.header, data@).next,
            reaction_matches(r, old(self)@.ip, step_on_packet(old(self)@, inbound.header, data@)),
    {
        let h = inbound.header;
        if data.len() > MAX_SEGMENT {
            return Reaction { datagram: None, destroy: false };
        }
        let mut slen: u32 = data.len() as u32;
        if h.fin {
            slen = slen + 1;
        }
        if h.syn {
            slen = slen + 1;
        }
        if !is_segment_acceptable(self.recv.nxt, self.recv.wnd, h.sequence_number, slen) {
            if h.rst {
                return Reaction { datagram: None, destroy: false };
            }
            return self.acknowledge_now();
        }
        if h.rst {
            return Reaction { datagram: None, destroy: true };
        }
        if !h.ack {
            return Reaction { datagram: None, destroy: false };
        }
        let ackn: u32 = h.acknowledgment_number;
        if !is_ack_acceptable(self.send.una, self.send.nxt, ackn) {
            if self.state.is_synchronized() {
                return Reaction { datagram: None, destroy: false };
            }
            let datagram = self.send_reset(ackn);
            return Reaction { datagram: Some(datagram), destroy: true };
        }
        self.acknowledge(ackn);
        self.receive(&h, data);
        if slen > 0 {
            self.acknowledge_now()
        } else {
            Reaction { datagram: None, destroy: false }
        }
    }

    /// Emits an empty segment with the current `send.nxt` and `recv.nxt`.
    fn acknowledge_now(&mut self) -> (r: Reaction)
        requires
            old(self).wf(),
        ensures
            final(self).wf(),
            final(self)@ == old(self)@.written(0),
            reaction_matches(r, old(self)@.ip, acknowledge(old(self)@)),
    {
        let nothing: Vec<u8> = Vec::new();
        assert(nothing@.take(0) == Seq::<u8>::empty());
        let datagram = self.write(nothing.as_slice());
        Reaction { datagram: Some(datagram), destroy: false }
    }

    /// Processes an acceptable acknowledgment number.
    fn acknowledge(&mut self, ackn: u32)
        requires
            old(self).wf(),
            ack_acceptable(old(self)@.send.una, old(self)@.send.nxt, ackn),
        ensures
            final(self)@ == old(self)@.acknowledged(ackn),
            final(self).wf(),
    {
        proof {
            crate::seqnum::lemma_closed_interval(self.send.una, self.send.nxt, ackn);
            crate::seqnum::lemma_distance_is_wrapping_sub(self.send.una, ackn);
        }
        let acked: u32 = ackn.wrapping_sub(self.send.una);
        let all = ackn == self.send.nxt;
        let ghost before = self@;
        self.send.una = ackn;
        if acked > 0 {
            self.retries = 0;
        }
        match self.state {
            State::SynRcvd => {
                if all {
                    self.state = State::Estab;
                }
            },
            State::Estab => {
                self.release(acked as usize);
            },
            State::FinWait1 => {
                if all {
                    self.release(self.unacked.len());
                    self.state = State::FinWait2;
                } else {
                    self.release(acked as usize);
                }
            },
            State::FinWait2 | State::TimeWait => {},
        }
        assert(self@.unacked =~= before.acknowledged(ackn).unacked);
    }

    /// Takes the first `n` bytes off the queue of unacknowledged bytes.
    fn release(&mut self, n: usize)
        requires
            n <= old(self)@.unacked.len(),
        ensures
            final(self)@ == (ConnectionView { unacked: old(self)@.unacked.skip(n as int), ..old(self)@ }),
    {
        let mut i: usize = 0;
        while i < n
            invariant
                i <= n <= old(self)@.unacked.len(),
                self@ == (ConnectionView { unacked: old(self)@.unacked.skip(i as int), ..old(self)@ }),
            decreases n - i,
        {
            let _ = self.unacked.pop_front();
            i += 1;
            assert(self@.unacked =~= old(self)@.unacked.skip(i as int));
        }
    }

    /// Takes in an acceptable segment whose acknowledgment has been
    /// processed.
    fn receive(&mut self, h: &SegmentHeader, data: &[u8])
        requires
            old(self).wf(),
            data@.len() <= MAX_SEGMENT,
        ensures
            final(self)@ == old(self)@.received(*h, data@),
            final(self).wf(),
    {
        let in_order = h.sequence_number == self.recv.nxt;
        let open = match self.state {
            State::Estab | State::FinWait1 | State::FinWait2 => true,
            State::SynRcvd | State::TimeWait => false,
        };
        if !(open && in_order) {
            return ;
        }
        let ghost before = self@;
        let mut i: usize = 0;
        while i < data.len()
            invariant
                i <= data@.len(),
                self@ == (ConnectionView {
                    incoming: before.incoming + data@.take(i as int),
                    ..before
                }),
            decreases data@.len() - i,
        {
            self.incoming.push_back(data[i]);
            i += 1;
            assert(self@.incoming =~= before.incoming + data@.take(i as int));
        }
        assert(data@.take(i as int) =~= data@);
        let take_fin = h.fin && self.state == State::FinWait2;
        let mut advance: u32 = data.len() as u32;
        if h.syn {
            advance = advance + 1;
        }
        if take_fin {
            advance = advance + 1;
            self.state = State::TimeWait;
        }
        proof {
            crate::seqnum::lemma_seq_add_is_wrapping(self.recv.nxt, advance);
        }
        self.recv.nxt = self.recv.nxt.wrapping_add(advance);
    }
}

/// The smaller of two numbers.
pub open spec fn least(a: int, b: int) -> int {
    if a <= b {
        a
    } else {
        b
    }
}

impl ConnectionView {
    /// How many bytes a read into a buffer of `capacity` bytes takes.
    pub open spec fn readable(self, capacity: int) -> int {
        least(capacity, self.incoming.len() as int)
    }

    /// Whether a read finds the end of the stream rather than having to
    /// wait: nothing is queued and the connection is beyond `Estab`.
    pub open spec fn at_end(self) -> bool {
        self.incoming.len() == 0 && self.state.beyond_estab()
    }

    /// The connection after a read into a buffer of `capacity` bytes.
    pub open spec fn after_read(self, capacity: int) -> ConnectionView {
        ConnectionView { incoming: self.incoming.skip(self.readable(capacity)), ..self }
    }

    /// How many more bytes the queue of unacknowledged bytes holds.
    pub open spec fn room(self) -> int {
        SEND_QUEUE_CAPACITY - self.unacked.len()
    }

    /// How many of `offered` bytes a write takes: none once the connection
    /// is closing, else as many as there is room for.
    pub open spec fn writable(self, offered: int) -> int {
        if self.closing {
            0
        } else {
            least(offered, self.room())
        }
    }

    /// The connection after a write of `buf`.
    pub open spec fn after_write(self, buf: Seq<u8>) -> ConnectionView {
        ConnectionView {
            unacked: self.unacked + buf.take(self.writable(buf.len() as int)),
            ..self
        }
    }

    /// In `Estab`: how many queued bytes have not been sent yet.
    pub open spec fn unsent(self) -> int {
        self.unacked.len() - self.in_flight()
    }

    /// In `Estab`: how many bytes the next segment carries, bounded by what
    /// is unsent, by what the send window leaves, and by what a datagram
    /// holds.
    pub open spec fn sendable(self) -> int {
        least(least(self.unsent(), self.send.wnd - self.in_flight()), MAX_PAYLOAD as int)
    }

    /// Whether the FIN goes out now: the application has closed, every
    /// queued byte has been sent, and the send window has room for one more
    /// sequence number.
    pub open spec fn fin_due(self) -> bool {
        self.state == State::Estab && self.closing && self.unsent() == 0 && self.in_flight()
            < self.send.wnd
    }

    /// The oldest segment in flight, as it is sent again: in `SynRcvd` the
    /// SYN, else the bytes from `send.una` on, as many as are in flight and
    /// fit a datagram, with the FIN where it is in flight and follows them
    /// directly.
    pub open spec fn oldest_in_flight(self) -> Emission {
        let data = match self.state {
            State::SynRcvd => 0,
            State::FinWait1 => least(self.in_flight() - 1, MAX_PAYLOAD as int),
            _ => least(self.in_flight(), MAX_PAYLOAD as int),
        };
        Emission {
            header: SegmentHeader {
                sequence_number: self.send.una,
                acknowledgment_number: self.recv.nxt,
                syn: self.state == State::SynRcvd,
                fin: self.state == State::FinWait1 && data == self.in_flight() - 1,
                ..self.tcp
            },
            payload: self.unacked.take(data),
        }
    }
}

/// What a transmission opportunity does to a connection. In `Estab` it
/// emits the next bytes that the send window allows, or else the FIN if that
/// is due, which leads to `FinWait1`. In every other state nothing happens.
pub open spec fn step_transmit(c: ConnectionView) -> Step {
    if c.state == State::Estab && c.sendable() > 0 {
        Step {
            next: c.written(c.sendable()),
            reply: Some(
                Emission {
                    header: c.stamped(),
                    payload: c.unacked.subrange(c.in_flight(), c.in_flight() + c.sendable()),
                },
            ),
            destroy: false,
        }
    } else if c.fin_due() {
        let closing = ConnectionView { tcp: SegmentHeader { fin: true, ..c.tcp }, ..c };
        Step {
            next: ConnectionView { state: State::FinWait1, ..closing.written(0) },
            reply: Some(bare(closing.stamped())),
            destroy: false,
        }
    } else {
        ignore(c)
    }
}

/// What the expiry of its timer does to a connection. In `TimeWait` the
/// connection is over. While nothing is in flight nothing happens. After
/// `MAX_RETRANSMISSIONS` fruitless repetitions the connection is given up.
/// Else the oldest segment in flight is sent again and counted.
pub open spec fn step_on_timer(c: ConnectionView) -> Step {
    if c.state == State::TimeWait {
        Step { next: c, reply: None, destroy: true }
    } else if c.in_flight() == 0 {
        ignore(c)
    } else if c.retries >= MAX_RETRANSMISSIONS {
        Step { next: c, reply: None, destroy: true }
    } else {
        Step {
            next: ConnectionView { retries: (c.retries + 1) as u8, ..c },
            reply: Some(c.oldest_in_flight()),
            destroy: false,
        }
    }
}

impl Connection {
    /// Moves received bytes, oldest first, into `buf`, as many as it holds.
    /// With nothing to move, a connection beyond `Estab` reports the end of
    /// the stream with `Ok(0)`, and any other asks the caller to wait.
    pub fn read_incoming(&mut self, buf: &mut [u8]) -> (r: Result<usize, Error>)
        requires
            old(self).wf(),
        ensures
            final(self).wf(),
            final(buf)@.len() == old(buf)@.len(),
            match r {
                Ok(n) => {
                    &&& old(self)@.incoming.len() > 0 || old(self)@.at_end()
                    &&& n == old(self)@.readable(old(buf)@.len() as int)
                    &&& final(buf)@ == old(self)@.incoming.take(n as int) + old(buf)@.skip(n as int)
                    &&& final(self)@ == old(self)@.after_read(old(buf)@.len() as int)
                },
                Err(e) => {
                    &&& e == Error::WouldBlock
                    &&& old(self)@.incoming.len() == 0
                    &&& !old(self)@.state.beyond_estab()
                    &&& final(buf)@ == old(buf)@
                    &&& final(self)@ == old(self)@
                },
            },
    {
        if self.incoming.len() == 0 {
            if self.state.is_beyond_estab() {
                assert(old(self)@.incoming.skip(0) =~= old(self)@.incoming);
                assert(old(self)@.incoming.take(0) + old(buf)@.skip(0) =~= old(buf)@);
                return Ok(0);
            }
            return Err(Error::WouldBlock);
        }
        let n: usize = if buf.len() < self.incoming.len() {
            buf.len()
        } else {
            self.incoming.len()
        };
        let mut i: usize = 0;
        while i < n
            invariant
                i <= n,
                n <= old(self)@.incoming.len(),
                n <= old(buf)@.len(),
                buf@.len() == old(buf)@.len(),
                buf@ == old(self)@.incoming.take(i as int) + old(buf)@.skip(i as int),
                self@ == (ConnectionView {
                    incoming: old(self)@.incoming.skip(i as int),
                    ..old(self)@
                }),
            decreases n - i,
        {
            let byte = self.incoming.pop_front();
            match byte {
                Some(b) => {
                    buf[i] = b;
                },
                None => {},
            }
            i += 1;
            assert(self@.incoming =~= old(self)@.incoming.skip(i as int));
            assert(buf@ =~= old(self)@.incoming.take(i as int) + old(buf)@.skip(i as int));
        }
        Ok(n)
    }

    /// Queues bytes of `buf` for sending, as many as there is room for. A
    /// closing connection takes none. With bytes on offer and no room, the
    /// caller is asked to wait.
    pub fn queue_outgoing(&mut self, buf: &[u8]) -> (r: Result<usize, Error>)
        requires
            old(self).wf(),
        ensures
            final(self).wf(),
            r is Err <==> !old(self)@.closing && buf@.len() > 0 && old(self)@.room() == 0,
            match r {
                Ok(n) => {
                    &&& n == old(self)@.writable(buf@.len() as int)
                    &&& final(self)@ == old(self)@.after_write(buf@)
                },
                Err(e) => e == Error::WouldBlock && final(self)@ == old(self)@,
            },
    {
        if self.closing || buf.len() == 0 {
            assert(old(self)@.unacked + buf@.take(0) =~= old(self)@.unacked);
            return Ok(0);
        }
        let room: usize = SEND_QUEUE_CAPACITY - self.unacked.len();
        if room == 0 {
            return Err(Error::WouldBlock);
        }
        let n: usize = if buf.len() < room {
            buf.len()
        } else {
            room
        };
        let mut i: usize = 0;
        while i < n
            invariant
                i <= n <= buf@.len(),
                self@ == (ConnectionView {
                    unacked: old(self)@.unacked + buf@.take(i as int),
                    ..old(self)@
                }),
            decreases n - i,
        {
            self.unacked.push_back(buf[i]);
            i += 1;
            assert(self@.unacked =~= old(self)@.unacked + buf@.take(i as int));
        }
        Ok(n)
    }

    /// Whether every byte written has been acknowledged.
    pub fn is_flushed(&self) -> (r: bool)
        ensures
            r == (self@.unacked.len() == 0),
    {
        self.unacked.len() == 0
    }

    /// Marks the connection as closing. The FIN goes out at the next
    /// transmission opportunity at which it is due.
    pub fn close(&mut self)
        requires
            old(self).wf(),
        ensures
            final(self).wf(),
            final(self)@ == (ConnectionView { closing: true, ..old(self)@ }),
    {
        self.closing = true;
    }

    /// Uses a transmission opportunity; see `step_transmit`.
    pub fn transmit(&mut self) -> (r: Reaction)
        requires
            old(self).wf(),
        ensures
            final(self).wf(),
            final(self)@ == step_transmit(old(self)@).next,
            reaction_matches(r, old(self)@.ip, step_transmit(old(self)@)),
    {
        match self.state {
            State::Estab => {},
            _ => {
                return Reaction { datagram: None, destroy: false };
            },
        }
        proof {
            crate::seqnum::lemma_distance_is_wrapping_sub(self.send.una, self.send.nxt);
        }
        let sent: usize = self.send.nxt.wrapping_sub(self.send.una) as usize;
        let unsent: usize = self.unacked.len() - sent;
        let window: usize = self.send.wnd as usize - sent;
        let mut n: usize = if unsent < window {
            unsent
        } else {
            window
        };
        if n > MAX_PAYLOAD {
            n = MAX_PAYLOAD;
        }
        if n > 0 {
            self.transmit_data(sent, n)
        } else if self.closing && unsent == 0 && window > 0 {
            self.transmit_fin()
        } else {
            Reaction { datagram: None, destroy: false }
        }
    }

    /// Emits the `n` queued bytes that follow the `sent` bytes in flight.
    fn transmit_data(&mut self, sent: usize, n: usize) -> (r: Reaction)
        requires
            old(self).wf(),
            old(self)@.state == State::Estab,
            sent == old(self)@.in_flight(),
            n == old(self)@.sendable(),
            n > 0,
        ensures
            final(self).wf(),
            final(self)@ == step_transmit(old(self)@).next,
            reaction_matches(r, old(self)@.ip, step_transmit(old(self)@)),
    {
        let chunk = self.copy_unacked(sent, n);
        assert(chunk@.take(n as int) =~= chunk@);
        proof {
            crate::seqnum::lemma_advance(self.send.una, self.send.nxt, n as int);
        }
        let datagram = self.write(chunk.as_slice());
        Reaction { datagram: Some(datagram), destroy: false }
    }

    /// Emits the FIN and enters `FinWait1`.
    fn transmit_fin(&mut self) -> (r: Reaction)
        requires
            old(self).wf(),
            old(self)@.sendable() == 0,
            old(self)@.fin_due(),
        ensures
            final(self).wf(),
            final(self)@ == step_transmit(old(self)@).next,
            reaction_matches(r, old(self)@.ip, step_transmit(old(self)@)),
    {
        proof {
            crate::seqnum::lemma_advance(self.send.una, self.send.nxt, 1);
        }
        self.tcp.fin = true;
        let nothing: Vec<u8> = Vec::new();
        assert(nothing@.take(0) == Seq::<u8>::empty());
        let datagram = self.write(nothing.as_slice());
        self.state = State::FinWait1;
        Reaction { datagram: Some(datagram), destroy: false }
    }

    /// Copies `n` queued bytes, starting with the one at `from`.
    fn copy_unacked(&self, from: usize, n: usize) -> (chunk: Vec<u8>)
        requires
            from + n <= self@.unacked.len(),
            from + n <= usize::MAX,
        ensures
            chunk@ == self@.unacked.subrange(from as int, from + n),
    {
        let mut chunk: Vec<u8> = Vec::with_capacity(n);
        let mut i: usize = 0;
        while i < n
            invariant
                i <= n,
                from + n <= self@.unacked.len(),
                from + n <= usize::MAX,
                chunk@ == self@.unacked.subrange(from as int, from + i),
            decreases n - i,
        {
            chunk.push(self.unacked[from + i]);
            i += 1;
            assert(chunk@ =~= self@.unacked.subrange(from as int, from + i));
        }
        chunk
    }

    /// Handles the expiry of the connection's timer; see `step_on_timer`.
    pub fn on_timer(&mut self) -> (r: Reaction)
        requires
            old(self).wf(),
        ensures
            final(self).wf(),
            final(self)@ == step_on_timer(old(self)@).next,
            reaction_matches(r, old(self)@.ip, step_on_timer(old(self)@)),
    {
        proof {
            crate::seqnum::lemma_distance_is_wrapping_sub(self.send.una, self.send.nxt);
        }
        let in_flight: usize = self.send.nxt.wrapping_sub(self.send.una) as usize;
        match self.state {
            State::TimeWait => {
                return Reaction { datagram: None, destroy: true };
            },
            _ => {},
        }
        if in_flight == 0 {
            return Reaction { datagram: None, destroy: false };
        }
        if self.retries >= MAX_RETRANSMISSIONS {
            return Reaction { datagram: None, destroy: true };
        }
        let mut data: usize = match self.state {
            State::SynRcvd => 0,
            State::FinWait1 => in_flight - 1,
            _ => in_flight,
        };
        if data > MAX_PAYLOAD {
            data = MAX_PAYLOAD;
        }
        let syn = match self.state {
            State::SynRcvd => true,
            _ => false,
        };
        let fin = match self.state {
            State::FinWait1 => data == in_flight - 1,
            _ => false,
        };
        let header = SegmentHeader {
            source_port: self.tcp.source_port,
            destination_port: self.tcp.destination_port,
            sequence_number: self.send.una,
            acknowledgment_number: self.recv.nxt,
            window_size: self.tcp.window_size,
            checksum: self.tcp.checksum,
            syn,
            ack: self.tcp.ack,
            fin,
            rst: self.tcp.rst,
        };
        let chunk = self.copy_unacked(0, data);
        assert(chunk@ =~= self@.unacked.take(data as int));
        let datagram = encode(&self.ip, &header, chunk.as_slice());
        self.retries = self.retries + 1;
        Reaction { datagram: Some(datagram), destroy: false }
    }
}

/// How many payload bytes of `offered` one segment carries.
pub open spec fn carried(offered: int) -> int {
    if offered < MAX_PAYLOAD {
        offered
    } else {
        MAX_PAYLOAD as int
    }
}

} // verus!
