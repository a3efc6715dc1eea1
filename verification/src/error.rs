//! Errors surfaced while serving a connection.

use vstd::prelude::*;

verus! {

/// A failure on the server side of a connection. The encoding and
/// overlong-message failures are produced by the request-processing loop
/// and are fatal for the connection; the others classify reactor-level
/// failures for the code that drives the library.
#[derive(Clone, Copy, Debug, PartialEq, Eq, Structural)]
pub enum Error {
    /// The control channel to the reactor could not deliver a message.
    Notify,
    /// The peer sent more bytes than the largest request without yielding
    /// a decodable message.
    OverLongMessage,
    /// A redelivery timer could not be armed.
    Timer,
    /// A response exceeded the wire protocol's size bound.
    Encoding,
    /// A socket-level failure.
    Io,
}

} // verus!
