//! A userspace TCP endpoint for IPv4 datagrams.
//!
//! The crate is the deterministic heart of a small TCP stack: sequence-number
//! arithmetic, the per-connection state machine, the wire encoding of the
//! segments it emits, and the connection manager that demultiplexes inbound
//! datagrams. It performs no I/O and never blocks; every operation takes the
//! bytes that arrived or the request an application made, and hands back the
//! datagrams to transmit. A driver owns the network device, the lock and the
//! timers.
//!
//! - `seqnum`: the cyclic order of 32-bit sequence numbers.
//! - `wire`: how datagrams are taken apart and put together.
//! - `tcp`: one connection.
//! - `iface`: all connections, the bound ports, listeners and streams.
//! - `laws`: what holds of the whole.

pub mod error;
pub mod iface;
pub mod laws;
pub mod seqnum;
pub mod tcp;
pub mod wire;

pub use error::Error;
pub use iface::{Interface, Quad, Shutdown, TcpListener, TcpStream};
pub use tcp::{Connection, State};
