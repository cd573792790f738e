//! The connection manager: which ports are bound, which connections exist,
//! and which of them wait to be accepted.
//!
//! An `Interface` is the state that a driver keeps behind its lock. The
//! driver hands it every datagram that arrives and every request of an
//! application, and sends whatever datagrams it gets back. No operation here
//! blocks: one that would have to wait says `Error::WouldBlock`, and the
//! driver waits for the next change and tries again.

use crate::error::Error;
use crate::tcp::{
    greeting, step_on_packet, step_on_timer, step_transmit, Connection, ConnectionView, Emission,
    Reaction, State, Step,
};
use crate::wire::{
    datagram_wire, deliverable, dissect, dissected, payload_of, Inbound, Ipv4Template,
};
use std::collections::HashMap;
use std::collections::VecDeque;
use vstd::prelude::*;

verus! {

broadcast use vstd::std_specs::hash::group_hash_axioms;

/// One end of a connection: an IPv4 address, its four octets read as one
/// big-endian number, and a port.
#[derive(Clone, Copy, Debug, PartialEq, Eq, Hash, Structural)]
pub struct Endpoint {
    pub addr: u32,
    pub port: u16,
}

/// The four-tuple that identifies a connection. Seen from a datagram that
/// arrives, `src` is the remote peer and `dst` the local end.
#[derive(Clone, Copy, Debug, PartialEq, Eq, Hash, Structural)]
pub struct Quad {
    pub src: Endpoint,
    pub dst: Endpoint,
}

/// The four-tuple of an inbound datagram.
pub open spec fn quad_of(i: Inbound) -> Quad {
    Quad {
        src: Endpoint { addr: i.source, port: i.header.source_port },
        dst: Endpoint { addr: i.destination, port: i.header.destination_port },
    }
}

/// The number under which a connection is filed: the 96 bits of its
/// four-tuple in a row.
pub open spec fn quad_key(q: Quad) -> u128 {
    (((q.src.addr as int * 0x1_0000 + q.src.port as int) * 0x1_0000_0000 + q.dst.addr as int)
        * 0x1_0000 + q.dst.port as int) as u128
}

/// Different four-tuples are filed under different numbers.
pub proof fn lemma_quad_key_injective(a: Quad, b: Quad)
    requires
        quad_key(a) == quad_key(b),
    ensures
        a == b,
{
    let ka = (a.src.addr as int * 0x1_0000 + a.src.port as int) * 0x1_0000_0000
        + a.dst.addr as int;
    let kb = (b.src.addr as int * 0x1_0000 + b.src.port as int) * 0x1_0000_0000
        + b.dst.addr as int;
    assert(ka * 0x1_0000 + a.dst.port as int == kb * 0x1_0000 + b.dst.port as int);
    assert(ka == kb && a.dst.port == b.dst.port);
    let ha = a.src.addr as int * 0x1_0000 + a.src.port as int;
    let hb = b.src.addr as int * 0x1_0000 + b.src.port as int;
    assert(ha == hb && a.dst.addr == b.dst.addr);
    assert(a.src.addr == b.src.addr && a.src.port == b.src.port);
}

fn key_of(q: &Quad) -> (k: u128)
    ensures
        k == quad_key(*q),
{
    let high: u128 = q.src.addr as u128 * 0x1_0000 + q.src.port as u128;
    let mid: u128 = high * 0x1_0000_0000 + q.dst.addr as u128;
    mid * 0x1_0000 + q.dst.port as u128
}

/// The ports that are bound, each with the queue of connections that wait
/// to be accepted on it, and the connections that exist.
pub struct Interface {
    connections: HashMap<u128, Connection>,
    pending: HashMap<u16, VecDeque<Quad>>,
}

/// What an interface is, as a mathematical value.
#[verifier::ext_equal]
pub struct InterfaceView {
    /// The connections, by four-tuple.
    pub connections: Map<Quad, ConnectionView>,
    /// For each bound port, the established connections that no `accept`
    /// has handed out yet, oldest first.
    pub pending: Map<u16, Seq<Quad>>,
}

impl View for Interface {
    type V = InterfaceView;

    closed spec fn view(&self) -> InterfaceView {
        InterfaceView {
            connections: Map::new(
                |q: Quad| self.connections@.contains_key(quad_key(q)),
                |q: Quad| self.connections@[quad_key(q)]@,
            ),
            pending: Map::new(
                |p: u16| self.pending@.contains_key(p),
                |p: u16| self.pending@[p]@,
            ),
        }
    }
}

/// A socket that listens on a bound port.
#[derive(Debug)]
pub struct TcpListener {
    port: u16,
}

impl View for TcpListener {
    type V = u16;

    closed spec fn view(&self) -> u16 {
        self.port
    }
}

/// One end of an accepted connection.
#[derive(Debug)]
pub struct TcpStream {
    quad: Quad,
}

impl View for TcpStream {
    type V = Quad;

    closed spec fn view(&self) -> Quad {
        self.quad
    }
}

/// Which direction of a stream to shut down.
#[derive(Clone, Copy, Debug, PartialEq, Eq, Structural)]
pub enum Shutdown {
    Read,
    Write,
    Both,
}

/// The datagram that carries an emitted segment, if there is one.
pub open spec fn wire_of(ip: Ipv4Template, reply: Option<Emission>) -> Seq<Seq<u8>> {
    match reply {
        Some(e) => seq![datagram_wire(ip, e.header, e.payload)],
        None => Seq::empty(),
    }
}

/// The bytes of each datagram in a list.
pub open spec fn contents(out: Seq<Vec<u8>>) -> Seq<Seq<u8>> {
    out.map_values(|d: Vec<u8>| d@)
}

/// What an event does to an interface.
pub struct Outcome {
    /// The interface afterwards.
    pub next: InterfaceView,
    /// The datagrams to send, in this order.
    pub emitted: Seq<Seq<u8>>,
}

/// Nothing happens.
pub open spec fn unmoved(v: InterfaceView) -> Outcome {
    Outcome { next: v, emitted: Seq::empty() }
}

/// What the step `s` of the connection `q` does to the interface. A
/// connection that is over is removed. Any other gets a transmission
/// opportunity right after the step, and if the step took it from `SynRcvd`
/// to `Estab` it joins the queue of its local port.
pub open spec fn applied(v: InterfaceView, q: Quad, s: Step) -> Outcome {
    let before = v.connections[q];
    if s.destroy {
        Outcome {
            next: InterfaceView { connections: v.connections.remove(q), ..v },
            emitted: wire_of(before.ip, s.reply),
        }
    } else {
        let t = step_transmit(s.next);
        let established = before.state == State::SynRcvd && s.next.state == State::Estab;
        Outcome {
            next: InterfaceView {
                connections: v.connections.insert(q, t.next),
                pending: if established && v.pending.contains_key(q.dst.port) {
                    v.pending.insert(q.dst.port, v.pending[q.dst.port].push(q))
                } else {
                    v.pending
                },
            },
            emitted: wire_of(before.ip, s.reply) + wire_of(before.ip, t.reply),
        }
    }
}

/// What an inbound segment does to an interface. It goes to the connection
/// of its four-tuple if there is one. Else, if it carries SYN and its
/// destination port is bound, a connection is made and the SYN/ACK emitted.
/// Else it is dropped.
pub open spec fn dispatched(v: InterfaceView, i: Inbound, data: Seq<u8>) -> Outcome {
    let q = quad_of(i);
    if v.connections.contains_key(q) {
        applied(v, q, step_on_packet(v.connections[q], i.header, data))
    } else if v.pending.contains_key(q.dst.port) && i.header.syn {
        Outcome {
            next: InterfaceView {
                connections: v.connections.insert(q, greeting(i).written(0)),
                ..v
            },
            emitted: seq![datagram_wire(greeting(i).ip, greeting(i).stamped(), Seq::empty())],
        }
    } else {
        unmoved(v)
    }
}

/// What a datagram from the network does to an interface: nothing unless it
/// is deliverable, and else what the segment in it does.
pub open spec fn received(v: InterfaceView, datagram: Seq<u8>) -> Outcome {
    if deliverable(datagram) {
        dispatched(v, dissected(datagram), payload_of(datagram))
    } else {
        unmoved(v)
    }
}

/// What the expiry of the timer of connection `q` does to an interface.
pub open spec fn timed_out(v: InterfaceView, q: Quad) -> Outcome {
    if v.connections.contains_key(q) {
        applied(v, q, step_on_timer(v.connections[q]))
    } else {
        unmoved(v)
    }
}

/// What a transmission opportunity for connection `q` does to an interface.
pub open spec fn transmitted(v: InterfaceView, q: Quad) -> Outcome {
    if v.connections.contains_key(q) {
        applied(v, q, crate::tcp::ignore(v.connections[q]))
    } else {
        unmoved(v)
    }
}

impl Interface {
    /// The invariant of an interface: every connection in it satisfies its
    /// own.
    pub closed spec fn wf(&self) -> bool {
        forall|k: u128| #[trigger]
            self.connections@.contains_key(k) ==> self.connections@[k].wf()
    }

    /// An interface with no port bound and no connection.
    pub fn new() -> (r: Interface)
        ensures
            r.wf(),
            r@.connections == Map::<Quad, ConnectionView>::empty(),
            r@.pending == Map::<u16, Seq<Quad>>::empty(),
    {
        let r = Interface { connections: HashMap::new(), pending: HashMap::new() };
        assert(r@.connections =~= Map::<Quad, ConnectionView>::empty());
        assert(r@.pending =~= Map::<u16, Seq<Quad>>::empty());
        r
    }

    /// Binds `port`, which starts with nothing to accept. A port can be
    /// bound once.
    pub fn bind(&mut self, port: u16) -> (r: Result<TcpListener, Error>)
        requires
            old(self).wf(),
        ensures
            final(self).wf(),
            match r {
                Ok(listener) => {
                    &&& !old(self)@.pending.contains_key(port)
                    &&& listener@ == port
                    &&& final(self)@ == (InterfaceView {
                        pending: old(self)@.pending.insert(port, Seq::empty()),
                        ..old(self)@
                    })
                },
                Err(e) => {
                    &&& e == Error::AddrInUse
                    &&& old(self)@.pending.contains_key(port)
                    &&& final(self)@ == old(self)@
                },
            },
    {
        if self.pending.contains_key(&port) {
            return Err(Error::AddrInUse);
        }
        self.pending.insert(port, VecDeque::new());
        assert(self@.pending =~= old(self)@.pending.insert(port, Seq::empty()));
        assert(self@.connections =~= old(self)@.connections);
        Ok(TcpListener { port })
    }

    /// The connection with the four-tuple `quad`, if there is one.
    pub fn connection(&self, quad: &Quad) -> (r: Option<&Connection>)
        requires
            self.wf(),
        ensures
            match r {
                Some(c) => self@.connections.contains_key(*quad) && c@
                    == self@.connections[*quad] && c.wf(),
                None => !self@.connections.contains_key(*quad),
            },
    {
        let key = key_of(quad);
        let r = self.connections.get(&key);
        proof {
            assert(self.connections@.contains_key(key) ==> self.connections@[key].wf());
        }
        r
    }

    /// Whether `port` is bound.
    pub fn is_bound(&self, port: u16) -> (r: bool)
        ensures
            r == self@.pending.contains_key(port),
    {
        self.pending.contains_key(&port)
    }

    /// How many established connections wait to be accepted on `port`, if
    /// it is bound.
    pub fn backlog(&self, port: u16) -> (r: Option<usize>)
        ensures
            match r {
                Some(n) => self@.pending.contains_key(port) && n == self@.pending[port].len(),
                None => !self@.pending.contains_key(port),
            },
    {
        match self.pending.get(&port) {
            Some(queue) => Some(queue.len()),
            None => None,
        }
    }

    /// Finishes the step `s` that the connection `c`, taken out of the
    /// interface, has just made, and puts it back unless it is over.
    fn settle(
        &mut self,
        quad: &Quad,
        c: Connection,
        reaction: Reaction,
        was_syn_rcvd: bool,
        Ghost(whole): Ghost<InterfaceView>,
        Ghost(s): Ghost<Step>,
    ) -> (out: Vec<Vec<u8>>)
        requires
            old(self).wf(),
            whole.connections.contains_key(*quad),
            old(self)@ == (InterfaceView { connections: whole.connections.remove(*quad), ..whole }),
            c.wf(),
            c@ == s.next,
            s.next.ip == whole.connections[*quad].ip,
            was_syn_rcvd == (whole.connections[*quad].state == State::SynRcvd),
            crate::tcp::reaction_matches(reaction, whole.connections[*quad].ip, s),
        ensures
            final(self).wf(),
            final(self)@ == applied(whole, *quad, s).next,
            contents(out@) == applied(whole, *quad, s).emitted,
    {
        let mut out: Vec<Vec<u8>> = Vec::new();
        let mut c = c;
        let Reaction { datagram, destroy } = reaction;
        match datagram {
            Some(d) => {
                out.push(d);
            },
            None => {},
        }
        assert(contents(out@) =~= wire_of(whole.connections[*quad].ip, s.reply));
        if destroy {
            return out;
        }
        let established = was_syn_rcvd && match c.state() {
            State::Estab => true,
            _ => false,
        };
        let follow = c.transmit();
        match follow.datagram {
            Some(d) => {
                out.push(d);
            },
            None => {},
        }
        assert(contents(out@) =~= wire_of(whole.connections[*quad].ip, s.reply) + wire_of(
            whole.connections[*quad].ip,
            step_transmit(s.next).reply,
        ));
        self.put(quad, c);
        if established {
            self.enqueue(quad);
        }
        assert(self@.connections =~= applied(whole, *quad, s).next.connections);
        assert(self@.pending =~= applied(whole, *quad, s).next.pending);
        out
    }

    /// Handles one inbound segment; see `dispatched`.
    pub fn dispatch(&mut self, inbound: &Inbound, payload: &[u8]) -> (out: Vec<Vec<u8>>)
        requires
            old(self).wf(),
        ensures
            final(self).wf(),
            final(self)@ == dispatched(old(self)@, *inbound, payload@).next,
            contents(out@) == dispatched(old(self)@, *inbound, payload@).emitted,
    {
        let quad = Quad {
            src: Endpoint { addr: inbound.source, port: inbound.header.source_port },
            dst: Endpoint { addr: inbound.destination, port: inbound.header.destination_port },
        };
        match self.take(&quad) {
            Some(c) => {
                let mut c = c;
                let was_syn_rcvd = match c.state() {
                    State::SynRcvd => true,
                    _ => false,
                };
                let ghost s = step_on_packet(c@, inbound.header, payload@);
                let reaction = c.on_packet(inbound, payload);
                self.settle(&quad, c, reaction, was_syn_rcvd, Ghost(old(self)@), Ghost(s))
            },
            None => {
                assert(self@ =~= old(self)@);
                let mut out: Vec<Vec<u8>> = Vec::new();
                if self.pending.contains_key(&quad.dst.port) {
                    match Connection::accept(inbound, payload) {
                        Some((c, syn_ack)) => {
                            self.put(&quad, c);
                            out.push(syn_ack);
                            assert(contents(out@) =~= dispatched(
                                old(self)@,
                                *inbound,
                                payload@,
                            ).emitted);
                        },
                        None => {
                            assert(contents(out@) =~= Seq::<Seq<u8>>::empty());
                        },
                    }
                } else {
                    assert(contents(out@) =~= Seq::<Seq<u8>>::empty());
                }
                out
            },
        }
    }

    /// Handles one datagram from the network; see `received`.
    pub fn receive(&mut self, datagram: &[u8]) -> (out: Vec<Vec<u8>>)
        requires
            old(self).wf(),
        ensures
            final(self).wf(),
            final(self)@ == received(old(self)@, datagram@).next,
            contents(out@) == received(old(self)@, datagram@).emitted,
    {
        match dissect(datagram) {
            Some(inbound) => {
                let payload = vstd::slice::slice_subrange(
                    datagram,
                    inbound.payload_start,
                    datagram.len(),
                );
                self.dispatch(&inbound, payload)
            },
            None => {
                let out: Vec<Vec<u8>> = Vec::new();
                assert(contents(out@) =~= Seq::<Seq<u8>>::empty());
                out
            },
        }
    }

    /// Handles the expiry of the timer of the connection `quad`; see
    /// `timed_out`.
    pub fn on_timer(&mut self, quad: &Quad) -> (out: Vec<Vec<u8>>)
        requires
            old(self).wf(),
        ensures
            final(self).wf(),
            final(self)@ == timed_out(old(self)@, *quad).next,
            contents(out@) == timed_out(old(self)@, *quad).emitted,
    {
        match self.take(quad) {
            Some(c) => {
                let mut c = c;
                let was_syn_rcvd = match c.state() {
                    State::SynRcvd => true,
                    _ => false,
                };
                let ghost s = step_on_timer(c@);
                let reaction = c.on_timer();
                self.settle(quad, c, reaction, was_syn_rcvd, Ghost(old(self)@), Ghost(s))
            },
            None => {
                assert(self@ =~= old(self)@);
                let out: Vec<Vec<u8>> = Vec::new();
                assert(contents(out@) =~= Seq::<Seq<u8>>::empty());
                out
            },
        }
    }

    /// Gives the connection `quad` a transmission opportunity; see
    /// `transmitted`.
    pub fn transmit(&mut self, quad: &Quad) -> (out: Vec<Vec<u8>>)
        requires
            old(self).wf(),
        ensures
            final(self).wf(),
            final(self)@ == transmitted(old(self)@, *quad).next,
            contents(out@) == transmitted(old(self)@, *quad).emitted,
    {
        match self.take(quad) {
            Some(c) => {
                let was_syn_rcvd = match c.state() {
                    State::SynRcvd => true,
                    _ => false,
                };
                let ghost s = crate::tcp::ignore(c@);
                let reaction = Reaction { datagram: None, destroy: false };
                self.settle(quad, c, reaction, was_syn_rcvd, Ghost(old(self)@), Ghost(s))
            },
            None => {
                assert(self@ =~= old(self)@);
                let out: Vec<Vec<u8>> = Vec::new();
                assert(contents(out@) =~= Seq::<Seq<u8>>::empty());
                out
            },
        }
    }

    /// Takes the connection filed under `quad` out of the interface.
    fn take(&mut self, quad: &Quad) -> (r: Option<Connection>)
        requires
            old(self).wf(),
        ensures
            final(self).wf(),
            final(self)@ == (InterfaceView {
                connections: old(self)@.connections.remove(*quad),
                ..old(self)@
            }),
            match r {
                Some(c) => old(self)@.connections.contains_key(*quad) && c@ == old(
                    self,
                )@.connections[*quad] && c.wf(),
                None => !old(self)@.connections.contains_key(*quad),
            },
    {
        let key = key_of(quad);
        let r = self.connections.remove(&key);
        proof {
            assert forall|q: Quad| quad_key(q) == key implies q == *quad by {
                lemma_quad_key_injective(q, *quad);
            }
            assert(old(self).connections@.contains_key(key) ==> old(self).connections@[key].wf());
            assert(self@.connections =~= old(self)@.connections.remove(*quad));
            assert(self@.pending =~= old(self)@.pending);
        }
        r
    }

    /// Files `c` under `quad`.
    fn put(&mut self, quad: &Quad, c: Connection)
        requires
            old(self).wf(),
            c.wf(),
        ensures
            final(self).wf(),
            final(self)@ == (InterfaceView {
                connections: old(self)@.connections.insert(*quad, c@),
                ..old(self)@
            }),
    {
        let key = key_of(quad);
        self.connections.insert(key, c);
        proof {
            assert forall|q: Quad| quad_key(q) == key implies q == *quad by {
                lemma_quad_key_injective(q, *quad);
            }
            assert(self@.connections =~= old(self)@.connections.insert(*quad, c@));
            assert(self@.pending =~= old(self)@.pending);
        }
    }

    /// Adds `quad` to the queue of its local port, if that port is bound.
    fn enqueue(&mut self, quad: &Quad)
        requires
            old(self).wf(),
        ensures
            final(self).wf(),
            final(self)@ == (InterfaceView {
                pending: if old(self)@.pending.contains_key(quad.dst.port) {
                    old(self)@.pending.insert(
                        quad.dst.port,
                        old(self)@.pending[quad.dst.port].push(*quad),
                    )
                } else {
                    old(self)@.pending
                },
                ..old(self)@
            }),
    {
        let port = quad.dst.port;
        match self.pending.remove(&port) {
            Some(mut queue) => {
                queue.push_back(*quad);
                self.pending.insert(port, queue);
                assert(self@.pending =~= old(self)@.pending.insert(
                    port,
                    old(self)@.pending[port].push(*quad),
                ));
            },
            None => {
                assert(self@.pending =~= old(self)@.pending);
            },
        }
        assert(self@.connections =~= old(self)@.connections);
    }
}

impl TcpListener {
    /// The port that the listener is bound to.
    pub fn port(&self) -> (r: u16)
        ensures
            r == self@,
    {
        self.port
    }

    /// Hands out the oldest established connection that waits on the
    /// listener's port. With none waiting the caller is asked to wait; a
    /// listener whose port is not bound on `iface` is turned away.
    pub fn accept(&mut self, iface: &mut Interface) -> (r: Result<TcpStream, Error>)
        requires
            old(iface).wf(),
        ensures
            final(iface).wf(),
            final(self)@ == old(self)@,
            match r {
                Ok(stream) => {
                    &&& old(iface)@.pending.contains_key(old(self)@)
                    &&& old(iface)@.pending[old(self)@].len() > 0
                    &&& stream@ == old(iface)@.pending[old(self)@][0]
                    &&& final(iface)@ == (InterfaceView {
                        pending: old(iface)@.pending.insert(
                            old(self)@,
                            old(iface)@.pending[old(self)@].skip(1),
                        ),
                        ..old(iface)@
                    })
                },
                Err(e) => {
                    &&& final(iface)@ == old(iface)@
                    &&& if old(iface)@.pending.contains_key(old(self)@) {
                        e == Error::WouldBlock && old(iface)@.pending[old(self)@].len() == 0
                    } else {
                        e == Error::InvalidInput
                    }
                },
            },
    {
        let port = self.port;
        match iface.pending.remove(&port) {
            Some(mut queue) => {
                let first = queue.pop_front();
                iface.pending.insert(port, queue);
                assert(iface@.connections =~= old(iface)@.connections);
                match first {
                    Some(quad) => {
                        assert(iface@.pending =~= old(iface)@.pending.insert(
                            port,
                            old(iface)@.pending[port].skip(1),
                        ));
                        Ok(TcpStream { quad })
                    },
                    None => {
                        assert(iface@.pending =~= old(iface)@.pending);
                        Err(Error::WouldBlock)
                    },
                }
            },
            None => {
                assert(iface@.connections =~= old(iface)@.connections);
                assert(iface@.pending =~= old(iface)@.pending);
                Err(Error::InvalidInput)
            },
        }
    }
}

impl TcpStream {
    /// The four-tuple of the connection behind the stream.
    pub fn quad(&self) -> (r: Quad)
        ensures
            r == self@,
    {
        self.quad
    }

    /// Reads received bytes into `buf`; see `Connection::read_incoming`. A
    /// stream whose connection is gone reports `ConnectionAborted`.
    pub fn read(&mut self, iface: &mut Interface, buf: &mut [u8]) -> (r: Result<usize, Error>)
        requires
            old(iface).wf(),
        ensures
            final(iface).wf(),
            final(self)@ == old(self)@,
            final(buf)@.len() == old(buf)@.len(),
            !old(iface)@.connections.contains_key(old(self)@) ==> r == Err::<usize, Error>(
                Error::ConnectionAborted,
            ) && final(iface)@ == old(iface)@ && final(buf)@ == old(buf)@,
            old(iface)@.connections.contains_key(old(self)@) ==> {
                let c = old(iface)@.connections[old(self)@];
                match r {
                    Ok(n) => {
                        &&& c.incoming.len() > 0 || c.at_end()
                        &&& n == c.readable(old(buf)@.len() as int)
                        &&& final(buf)@ == c.incoming.take(n as int) + old(buf)@.skip(n as int)
                        &&& final(iface)@ == (InterfaceView {
                            connections: old(iface)@.connections.insert(
                                old(self)@,
                                c.after_read(old(buf)@.len() as int),
                            ),
                            ..old(iface)@
                        })
                    },
                    Err(e) => {
                        &&& e == Error::WouldBlock
                        &&& c.incoming.len() == 0
                        &&& !c.state.beyond_estab()
                        &&& final(buf)@ == old(buf)@
                        &&& final(iface)@ == old(iface)@
                    },
                }
            },
    {
        let quad = self.quad;
        match iface.take(&quad) {
            Some(c) => {
                let mut c = c;
                let r = c.read_incoming(buf);
                iface.put(&quad, c);
                assert(iface@.connections =~= old(iface)@.connections.insert(quad, c@));
                r
            },
            None => {
                assert(iface@ =~= old(iface)@);
                Err(Error::ConnectionAborted)
            },
        }
    }

    /// Queues bytes of `buf` for sending; see `Connection::queue_outgoing`.
    /// A stream whose connection is gone reports `ConnectionAborted`.
    pub fn write(&mut self, iface: &mut Interface, buf: &[u8]) -> (r: Result<usize, Error>)
        requires
            old(iface).wf(),
        ensures
            final(iface).wf(),
            final(self)@ == old(self)@,
            !old(iface)@.connections.contains_key(old(self)@) ==> r == Err::<usize, Error>(
                Error::ConnectionAborted,
            ) && final(iface)@ == old(iface)@,
            old(iface)@.connections.contains_key(old(self)@) ==> {
                let c = old(iface)@.connections[old(self)@];
                match r {
                    Ok(n) => {
                        &&& c.closing || buf@.len() == 0 || c.room() > 0
                        &&& n == c.writable(buf@.len() as int)
                        &&& final(iface)@ == (InterfaceView {
                            connections: old(iface)@.connections.insert(
                                old(self)@,
                                c.after_write(buf@),
                            ),
                            ..old(iface)@
                        })
                    },
                    Err(e) => {
                        &&& e == Error::WouldBlock
                        &&& !c.closing && buf@.len() > 0 && c.room() == 0
                        &&& final(iface)@ == old(iface)@
                    },
                }
            },
    {
        let quad = self.quad;
        match iface.take(&quad) {
            Some(c) => {
                let mut c = c;
                let r = c.queue_outgoing(buf);
                iface.put(&quad, c);
                assert(iface@.connections =~= old(iface)@.connections.insert(quad, c@));
                r
            },
            None => {
                assert(iface@ =~= old(iface)@);
                Err(Error::ConnectionAborted)
            },
        }
    }

    /// Succeeds once every byte written has been acknowledged; until then
    /// the caller is asked to wait. A stream whose connection is gone
    /// reports `ConnectionAborted`.
    pub fn flush(&mut self, iface: &Interface) -> (r: Result<(), Error>)
        requires
            iface.wf(),
        ensures
            final(self)@ == old(self)@,
            r == if !iface@.connections.contains_key(old(self)@) {
                Err::<(), Error>(Error::ConnectionAborted)
            } else if iface@.connections[old(self)@].unacked.len() == 0 {
                Ok::<(), Error>(())
            } else {
                Err::<(), Error>(Error::WouldBlock)
            },
    {
        let key = key_of(&self.quad);
        match iface.connections.get(&key) {
            Some(c) => {
                if c.is_flushed() {
                    Ok(())
                } else {
                    Err(Error::WouldBlock)
                }
            },
            None => Err(Error::ConnectionAborted),
        }
    }

    /// Closes the sending direction: the connection is marked as closing,
    /// and its FIN goes out at the next transmission opportunity at which
    /// it is due. Shutting down only the receiving direction changes
    /// nothing. A stream whose connection is gone reports
    /// `ConnectionAborted`.
    pub fn shutdown(&self, iface: &mut Interface, how: Shutdown) -> (r: Result<(), Error>)
        requires
            old(iface).wf(),
        ensures
            final(iface).wf(),
            r == if old(iface)@.connections.contains_key(self@) {
                Ok::<(), Error>(())
            } else {
                Err::<(), Error>(Error::ConnectionAborted)
            },
            final(iface)@ == if old(iface)@.connections.contains_key(self@) && how
                != Shutdown::Read {
                InterfaceView {
                    connections: old(iface)@.connections.insert(
                        self@,
                        ConnectionView { closing: true, ..old(iface)@.connections[self@] },
                    ),
                    ..old(iface)@
                }
            } else {
                old(iface)@
            },
    {
        let quad = self.quad;
        match iface.take(&quad) {
            Some(c) => {
                let mut c = c;
                match how {
                    Shutdown::Read => {},
                    Shutdown::Write | Shutdown::Both => {
                        c.close();
                    },
                }
                iface.put(&quad, c);
                assert(iface@.connections =~= old(iface)@.connections.insert(quad, c@));
                assert(how == Shutdown::Read ==> iface@.connections =~= old(iface)@.connections);
                Ok(())
            },
            None => {
                assert(iface@ =~= old(iface)@);
                Err(Error::ConnectionAborted)
            },
        }
    }
}

} // verus!
