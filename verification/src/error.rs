//! Errors of the networking backend.

use vstd::prelude::*;

verus! {

/// Why an outbound connection was not established.
#[derive(Debug, Clone, Copy, PartialEq, Eq, Structural)]
pub enum DialError {
    ConnectionRefusedOrTimedOut,
    AttemptToDialSelf,
    NoAddresses,
    TransportFailure,
}

/// How a peer broke the protocol.
#[derive(Debug, Clone, Copy, PartialEq, Eq)]
pub enum ProtocolError {
    /// The peer is on another network: `(our magic bytes, theirs)`.
    DifferentNetwork([u8; 4], [u8; 4]),
    IncompatibleVersion,
    MessageTooLarge,
    MalformedMessage,
    UnexpectedMessage,
}

/// What is wrong with the peer that an operation names.
#[derive(Debug, Clone, Copy, PartialEq, Eq, Structural)]
pub enum PeerError {
    PeerAlreadyExists,
    PeerDoesntExist,
    PeerUnavailable,
}

/// Why an announcement was not published.
#[derive(Debug, Clone, Copy, PartialEq, Eq, Structural)]
pub enum PublishError {
    /// The serialized announcement is too long: `(its length, the limit)`.
    MessageTooLarge(usize, usize),
}

/// Any error of the networking backend.
#[derive(Debug, Clone, Copy, PartialEq, Eq)]
pub enum P2pError {
    DialError(DialError),
    ProtocolError(ProtocolError),
    PeerError(PeerError),
    PublishError(PublishError),
    /// The other half of a channel is gone.
    ChannelClosed,
}

} // verus!
