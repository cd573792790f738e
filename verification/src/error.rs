//! The errors that the stack reports to an application.

use vstd::prelude::*;

verus! {

/// Why an operation on the interface, a listener or a stream did not succeed.
#[derive(Clone, Copy, Debug, PartialEq, Eq, Structural)]
pub enum Error {
    /// The port is already bound.
    AddrInUse,
    /// The connection behind a stream is gone: the peer reset it, it was
    /// given up after too many retransmissions, or it came to its end.
    ConnectionAborted,
    /// The operation can make no progress now. A caller that wants to block
    /// waits for the next change of the interface and tries again.
    WouldBlock,
    /// An argument does not belong to this interface.
    InvalidInput,
}

} // verus!
