//! The errors of the socket layer as a whole.
use vstd::prelude::*;
use crate::connection;

verus! {

/// The standard library's I/O error, carried through unchanged.
#[verifier::external_type_specification]
#[verifier::external_body]
pub struct ExIoError(std::io::Error);

/// What opening, using or closing a socket can fail with.
#[derive(Debug)]
pub enum Error {
    /// An I/O error of the underlying socket.
    Io(std::io::Error),
    /// The connection was closed.
    ConnectionClosed,
    /// No target address was specified, but the socket is not connected.
    NoTarget,
    /// Failed to establish a connection.
    Connect(connection::Error),
}

} // verus!
