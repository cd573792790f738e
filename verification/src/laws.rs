//! What holds of the stack as a whole, proved from the definitions that the
//! contracts of its operations use.

use crate::iface::{dispatched, quad_of, InterfaceView};
use crate::seqnum::{distance, seq_add};
use crate::tcp::{
    greeting, least, segment_acceptable, step_on_packet, step_on_timer, step_transmit,
    ConnectionView, State, INITIAL_SEND_SEQUENCE, INITIAL_WINDOW,
};
use crate::wire::{datagram_wire, Inbound, SegmentHeader, MAX_PAYLOAD};
use vstd::prelude::*;

verus! {

/// Against a receive window of `wnd > 0` numbers that starts at `nxt`, an
/// empty segment is acceptable at each of the `wnd` numbers from `nxt` on,
/// and neither just before the window nor just past it.
pub proof fn lemma_window_edges(nxt: u32, wnd: u16, k: int)
    requires
        wnd > 0,
        0 <= k < wnd,
    ensures
        segment_acceptable(nxt, wnd, seq_add(nxt, k), 0),
        !segment_acceptable(nxt, wnd, seq_add(nxt, -1), 0),
        !segment_acceptable(nxt, wnd, seq_add(nxt, wnd as int), 0),
{
}

/// A SYN for a bound port on which no connection with that four-tuple
/// exists is answered with exactly one datagram: a SYN/ACK whose sequence
/// number is the initial send sequence number, whose acknowledgment number
/// is one past the SYN's sequence number, and whose window is the initial
/// one. The connection it creates is in `SynRcvd`.
pub proof fn lemma_handshake(v: InterfaceView, i: Inbound, data: Seq<u8>)
    requires
        i.header.syn,
        v.pending.contains_key(i.header.destination_port),
        !v.connections.contains_key(quad_of(i)),
    ensures
        dispatched(v, i, data).emitted.len() == 1,
        dispatched(v, i, data).emitted[0] == datagram_wire(
            greeting(i).ip,
            SegmentHeader {
                source_port: i.header.destination_port,
                destination_port: i.header.source_port,
                sequence_number: INITIAL_SEND_SEQUENCE,
                acknowledgment_number: seq_add(i.header.sequence_number, 1),
                window_size: INITIAL_WINDOW,
                checksum: 0,
                syn: true,
                ack: true,
                fin: false,
                rst: false,
            },
            Seq::empty(),
        ),
        dispatched(v, i, data).next.connections.contains_key(quad_of(i)),
        dispatched(v, i, data).next.connections[quad_of(i)].state == State::SynRcvd,
        dispatched(v, i, data).next.connections[quad_of(i)].wf(),
{
}

/// What can happen to a connection.
pub enum Event {
    /// A segment arrives.
    Segment { header: SegmentHeader, data: Seq<u8> },
    /// The application reads into a buffer of `capacity` bytes.
    Read { capacity: nat },
    /// The application writes `buf`.
    Write { buf: Seq<u8> },
    /// The application closes the sending direction.
    Close,
    /// The connection gets a transmission opportunity.
    Transmit,
    /// The connection's timer expires.
    Timer,
}

/// A connection together with all that reads have returned from it so far.
pub struct Trace {
    pub connection: ConnectionView,
    pub read: Seq<u8>,
}

/// The connection `c` after `events`, in this order, and what the reads
/// among them have returned, in this order.
pub open spec fn replay(c: ConnectionView, events: Seq<Event>) -> Trace
    decreases events.len(),
{
    if events.len() == 0 {
        Trace { connection: c, read: Seq::empty() }
    } else {
        let before = replay(c, events.drop_last());
        let at = before.connection;
        match events.last() {
            Event::Segment { header, data } => Trace {
                connection: step_on_packet(at, header, data).next,
                ..before
            },
            Event::Read { capacity } => Trace {
                connection: at.after_read(capacity as int),
                read: before.read + at.incoming.take(at.readable(capacity as int)),
            },
            Event::Write { buf } => Trace { connection: at.after_write(buf), ..before },
            Event::Close => Trace {
                connection: ConnectionView { closing: true, ..at },
                ..before
            },
            Event::Transmit => Trace { connection: step_transmit(at).next, ..before },
            Event::Timer => Trace { connection: step_on_timer(at).next, ..before },
        }
    }
}

/// Whether a segment carries bytes of the peer's stream `b` at their place,
/// where the first byte of `b` has the sequence number after `irs`: it has
/// neither SYN nor FIN, and its payload is the part of `b` that starts as
/// far into `b` as its sequence number says.
pub open spec fn from_stream(b: Seq<u8>, irs: u32, header: SegmentHeader, data: Seq<u8>) -> bool {
    let k = distance(seq_add(irs, 1), header.sequence_number);
    &&& !header.syn
    &&& !header.fin
    &&& k + data.len() <= b.len()
    &&& data == b.subrange(k, k + data.len())
}

/// What holds between the peer's stream `b`, a connection, and what has been
/// read from it: `recv.nxt` lies within `b`, and what has been read,
/// followed by what is queued for reading, is `b` up to there.
#[verifier::opaque]
pub open spec fn in_step(b: Seq<u8>, irs: u32, t: Trace) -> bool {
    let d = distance(seq_add(irs, 1), t.connection.recv.nxt);
    &&& t.connection.recv.irs == irs
    &&& d <= b.len()
    &&& t.read + t.connection.incoming == b.take(d)
}

/// A segment either leaves the inbound side of a connection alone or, if
/// it starts at `recv.nxt`, appends its payload and moves `recv.nxt` past
/// what is taken of it.
pub proof fn lemma_segment_inbound(c: ConnectionView, header: SegmentHeader, data: Seq<u8>)
    ensures
        ({
            let next = step_on_packet(c, header, data).next;
            &&& next.recv.irs == c.recv.irs
            &&& next.recv.wnd == c.recv.wnd
            &&& {
                ||| next.recv.nxt == c.recv.nxt && next.incoming == c.incoming
                ||| {
                    &&& header.sequence_number == c.recv.nxt
                    &&& next.incoming == c.incoming + data
                    &&& exists|extra: int|
                        0 <= extra <= 2 && (!header.syn && !header.fin ==> extra == 0)
                            && #[trigger] seq_add(c.recv.nxt, data.len() + extra)
                            == next.recv.nxt
                }
            }
        }),
{
    let acked = c.acknowledged(header.acknowledgment_number);
    let taken = acked.received(header, data);
    let next = step_on_packet(c, header, data).next;
    if next.recv.nxt != c.recv.nxt || next.incoming != c.incoming {
        assert(next.recv == taken.recv && next.incoming == taken.incoming);
        assert(acked.takes(header));
        let extra = crate::tcp::flag(header.syn) + crate::tcp::flag(acked.takes_fin(header));
        assert(seq_add(c.recv.nxt, data.len() + extra) == next.recv.nxt);
    }
}

/// A segment that carries bytes of the peer's stream at their place keeps
/// the connection in step with the stream.
pub proof fn lemma_segment_in_step(
    b: Seq<u8>,
    irs: u32,
    t: Trace,
    header: SegmentHeader,
    data: Seq<u8>,
)
    requires
        b.len() < 0x8000_0000,
        in_step(b, irs, t),
        from_stream(b, irs, header, data),
    ensures
        in_step(
            b,
            irs,
            Trace { connection: step_on_packet(t.connection, header, data).next, ..t },
        ),
{
    reveal(in_step);
    let c = t.connection;
    let next = step_on_packet(c, header, data).next;
    lemma_segment_inbound(c, header, data);
    let d = distance(seq_add(irs, 1), c.recv.nxt);
    if next.recv.nxt == c.recv.nxt && next.incoming == c.incoming {
    } else {
        assert(next.recv.nxt == seq_add(c.recv.nxt, data.len() as int));
        lemma_stream_arithmetic(irs, c.recv.nxt, data.len() as int);
        assert(t.read + (c.incoming + data) =~= (t.read + c.incoming) + data);
        assert(b.take(d) + b.subrange(d, d + data.len()) =~= b.take(d + data.len()));
    }
}

/// Moving on by `n` from a point `d < 2^31` steps into a stream leads
/// `d + n` steps into it, as long as that is less than 2^32.
proof fn lemma_stream_arithmetic(irs: u32, nxt: u32, n: int)
    requires
        0 <= n,
        distance(seq_add(irs, 1), nxt) + n < 0x1_0000_0000,
    ensures
        distance(seq_add(irs, 1), seq_add(nxt, n)) == distance(seq_add(irs, 1), nxt) + n,
{
}

/// A read keeps the connection in step with the stream.
pub proof fn lemma_read_in_step(b: Seq<u8>, irs: u32, t: Trace, capacity: nat)
    requires
        in_step(b, irs, t),
    ensures
        in_step(
            b,
            irs,
            Trace {
                connection: t.connection.after_read(capacity as int),
                read: t.read + t.connection.incoming.take(
                    t.connection.readable(capacity as int),
                ),
            },
        ),
{
    reveal(in_step);
    let at = t.connection;
    let n = at.readable(capacity as int);
    assert(t.read + at.incoming.take(n) + at.incoming.skip(n) =~= t.read + at.incoming);
}

/// Writing, closing, transmitting and the expiry of the timer leave the
/// inbound side of a connection alone.
pub proof fn lemma_outbound_events_in_step(b: Seq<u8>, irs: u32, t: Trace, buf: Seq<u8>)
    requires
        in_step(b, irs, t),
    ensures
        in_step(b, irs, Trace { connection: t.connection.after_write(buf), ..t }),
        in_step(b, irs, Trace { connection: ConnectionView { closing: true, ..t.connection }, ..t }),
        in_step(b, irs, Trace { connection: step_transmit(t.connection).next, ..t }),
        in_step(b, irs, Trace { connection: step_on_timer(t.connection).next, ..t }),
{
    reveal(in_step);
}

/// Byte-stream fidelity. Let the peer send the bytes `b`, fewer than 2^31,
/// in segments that may arrive in any order, any number of times, and mixed
/// with any other events. Then at every moment what the reads have returned
/// so far, followed by what is queued for reading, is the beginning of `b`,
/// as far as `recv.nxt` says: nothing is missing from it, nothing is
/// inserted, and nothing occurs twice.
pub proof fn lemma_stream_fidelity(b: Seq<u8>, c: ConnectionView, events: Seq<Event>)
    requires
        b.len() < 0x8000_0000,
        c.incoming.len() == 0,
        c.recv.nxt == seq_add(c.recv.irs, 1),
        forall|i: int|
            0 <= i < events.len() ==> (#[trigger] events[i] matches Event::Segment {
                header,
                data,
            } ==> from_stream(b, c.recv.irs, header, data)),
    ensures
        in_step(b, c.recv.irs, replay(c, events)),
    decreases events.len(),
{
    if events.len() == 0 {
        reveal(in_step);
        assert(replay(c, events).read + c.incoming =~= b.take(0));
    } else {
        let earlier = events.drop_last();
        assert forall|i: int| 0 <= i < earlier.len() implies (#[trigger] earlier[i] matches Event::Segment {
            header,
            data,
        } ==> from_stream(b, c.recv.irs, header, data)) by {
            assert(earlier[i] == events[i]);
        }
        lemma_stream_fidelity(b, c, earlier);
        let before = replay(c, earlier);
        match events.last() {
            Event::Segment { header, data } => {
                assert(events[events.len() - 1] == events.last());
                lemma_segment_in_step(b, c.recv.irs, before, header, data);
            },
            Event::Read { capacity } => {
                lemma_read_in_step(b, c.recv.irs, before, capacity);
            },
            Event::Write { buf } => {
                lemma_outbound_events_in_step(b, c.recv.irs, before, buf);
            },
            _ => {
                lemma_outbound_events_in_step(b, c.recv.irs, before, Seq::empty());
            },
        }
    }
}

/// One round with a peer that keeps up: the connection uses a transmission
/// opportunity, and the peer acknowledges all that is in flight.
#[verifier::opaque]
pub open spec fn round(c: ConnectionView) -> ConnectionView {
    let sent = step_transmit(c).next;
    sent.acknowledged(sent.send.nxt)
}

/// The payload that goes out in a round.
#[verifier::opaque]
pub open spec fn round_payload(c: ConnectionView) -> Seq<u8> {
    match step_transmit(c).reply {
        Some(e) => e.payload,
        None => Seq::empty(),
    }
}

/// The connection after `n` rounds.
pub open spec fn rounds(c: ConnectionView, n: nat) -> ConnectionView
    decreases n,
{
    if n == 0 {
        c
    } else {
        round(rounds(c, (n - 1) as nat))
    }
}

/// The payloads that go out in `n` rounds, one after the other.
pub open spec fn rounds_payload(c: ConnectionView, n: nat) -> Seq<u8>
    decreases n,
{
    if n == 0 {
        Seq::empty()
    } else {
        rounds_payload(c, (n - 1) as nat) + round_payload(rounds(c, (n - 1) as nat))
    }
}

/// How many queued bytes have gone out after `n` rounds: in each round as
/// many as the send window and a datagram allow, until none is left.
pub open spec fn gone(c: ConnectionView, n: nat) -> int
    decreases n,
{
    if n == 0 {
        0
    } else {
        least(
            c.unacked.len() as int,
            gone(c, (n - 1) as nat) + least(c.send.wnd as int, MAX_PAYLOAD as int),
        )
    }
}

/// An open connection with nothing in flight that the application has not
/// closed.
#[verifier::opaque]
pub open spec fn idle(c: ConnectionView) -> bool {
    c.wf() && c.state == State::Estab && !c.closing && c.in_flight() == 0
}

/// One round of an open connection with nothing in flight sends the next
/// queued bytes, as many as the send window and a datagram allow, moves
/// `send.nxt` past them, and sees them acknowledged.
pub proof fn lemma_round(c: ConnectionView)
    requires
        idle(c),
    ensures
        ({
            let n = least(c.unacked.len() as int, least(c.send.wnd as int, MAX_PAYLOAD as int));
            let r = round(c);
            &&& idle(r)
            &&& r.send.wnd == c.send.wnd
            &&& r.send.nxt == seq_add(c.send.nxt, n)
            &&& r.unacked == c.unacked.skip(n)
            &&& round_payload(c) == c.unacked.take(n)
        }),
{
    reveal(idle);
    reveal(round);
    reveal(round_payload);
    let n = least(c.unacked.len() as int, least(c.send.wnd as int, MAX_PAYLOAD as int));
    assert(c.send.una == c.send.nxt);
    assert(c.sendable() == n);
    let sent = step_transmit(c).next;
    if n > 0 {
        crate::seqnum::lemma_advance(c.send.una, c.send.nxt, n);
        assert(sent.send.nxt == seq_add(c.send.nxt, n));
        assert(distance(sent.send.una, sent.send.nxt) == n);
        assert(round_payload(c) =~= c.unacked.take(n));
    } else {
        assert(sent == c);
        assert(round_payload(c) =~= c.unacked.take(0));
        assert(c.unacked.skip(0) =~= c.unacked);
    }
    assert(distance(sent.send.nxt, sent.send.nxt) == 0);
}

/// Send progress. While the peer keeps up, an open connection sends its
/// queued bytes in the order in which they were written: after `n` rounds
/// `gone(c, n)` of them have gone out, exactly once each, `send.nxt` has
/// moved that far, and they have left the queue.
pub proof fn lemma_send_progress(c: ConnectionView, n: nat)
    requires
        idle(c),
    ensures
        ({
            let r = rounds(c, n);
            &&& idle(r)
            &&& r.send.wnd == c.send.wnd
            &&& 0 <= gone(c, n) <= c.unacked.len()
            &&& r.send.nxt == seq_add(c.send.nxt, gone(c, n))
            &&& r.unacked == c.unacked.skip(gone(c, n))
            &&& rounds_payload(c, n) == c.unacked.take(gone(c, n))
        }),
    decreases n,
{
    if n == 0 {
        assert(c.unacked.skip(0) =~= c.unacked);
        assert(rounds_payload(c, n) =~= c.unacked.take(0));
    } else {
        let m = (n - 1) as nat;
        lemma_send_progress(c, m);
        let before = rounds(c, m);
        lemma_round(before);
        let g = gone(c, m);
        let step = least(
            before.unacked.len() as int,
            least(c.send.wnd as int, MAX_PAYLOAD as int),
        );
        assert(gone(c, n) == g + step);
        lemma_onward(c.send.nxt, c.unacked, g, step);
    }
}

/// Going `step` further from `g` steps into a queue and a sequence space.
proof fn lemma_onward(nxt: u32, queue: Seq<u8>, g: int, step: int)
    requires
        0 <= g,
        0 <= step,
        g + step <= queue.len(),
    ensures
        seq_add(seq_add(nxt, g), step) == seq_add(nxt, g + step),
        queue.skip(g).skip(step) == queue.skip(g + step),
        queue.take(g) + queue.skip(g).take(step) == queue.take(g + step),
{
    assert(queue.skip(g).skip(step) =~= queue.skip(g + step));
    assert(queue.take(g) + queue.skip(g).take(step) =~= queue.take(g + step));
}

/// With a send window that is not shut, every round sends at least one
/// byte while any is left.
pub proof fn lemma_gone_grows(c: ConnectionView, n: nat)
    requires
        c.send.wnd > 0,
    ensures
        gone(c, n) >= least(c.unacked.len() as int, n as int),
    decreases n,
{
    if n > 0 {
        lemma_gone_grows(c, (n - 1) as nat);
    }
}

/// Send monotonicity. After a write that took `k` bytes of `buf` into an
/// open connection with nothing queued and a send window that is not shut,
/// `k` rounds with a peer that keeps up are enough: `send.nxt` has then
/// advanced by `k`, and what went out is the first `k` bytes of `buf`, in
/// order.
pub proof fn lemma_written_bytes_go_out(c: ConnectionView, buf: Seq<u8>)
    requires
        c.wf(),
        c.state == State::Estab,
        !c.closing,
        c.in_flight() == 0,
        c.unacked.len() == 0,
        c.send.wnd > 0,
    ensures
        ({
            let k = c.writable(buf.len() as int);
            let w = c.after_write(buf);
            let r = rounds(w, k as nat);
            &&& 0 <= k <= buf.len()
            &&& w.unacked == buf.take(k)
            &&& r.send.nxt == seq_add(c.send.nxt, k)
            &&& r.unacked.len() == 0
            &&& rounds_payload(w, k as nat) == buf.take(k)
        }),
{
    let k = c.writable(buf.len() as int);
    let w = c.after_write(buf);
    assert(w.unacked =~= buf.take(k));
    assert(idle(w)) by {
        reveal(idle);
    }
    lemma_send_progress(w, k as nat);
    lemma_gone_grows(w, k as nat);
    assert(gone(w, k as nat) == k);
    assert(w.unacked.take(k) =~= buf.take(k));
}

} // verus!
