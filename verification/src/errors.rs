//! Error types of the protocol, one per failure class: malformed frames,
//! unknown message-type codes, datagram I/O failures reported by a caller's
//! transport, and invalid configuration at peer construction.

use vstd::prelude::*;

verus! {

/// A malformed, truncated or over-length field seen while encoding or
/// decoding a message.
#[derive(Clone, Debug)]
pub struct FormatError {
    pub error: String,
}

/// An unrecognized message-type code in an otherwise well-formed header.
#[derive(Clone, Debug)]
pub struct ProtocolError {
    pub error: String,
}

/// An I/O failure on the send or receive of a single datagram. The library
/// never performs I/O itself; this type lets callers report transport
/// failures in the protocol's own vocabulary.
#[derive(Clone, Debug)]
pub struct TransportError {
    pub error: String,
}

/// Invalid configuration detected while building a peer, before anything
/// runs: an over-length peer name or group name, or a failure to bind the
/// caller's socket.
#[derive(Clone, Debug)]
pub enum ConstructionError {
    /// The configured peer name does not fit the 32-byte wire field.
    OversizedName,
    /// The configured group name does not fit the 32-byte wire field.
    OversizedGroup,
    /// The caller's transport could not be set up.
    Bind(TransportError),
}

/// Why a received frame was rejected: either its shape is wrong
/// (`Format`) or its message-type code is unknown (`Protocol`).
#[derive(Clone, Debug)]
pub enum DecodeError {
    Format(FormatError),
    Protocol(ProtocolError),
}

} // verus!
