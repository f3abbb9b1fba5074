//! Framing codec for a request/response protocol spoken over an ordered byte
//! stream.
//!
//! An outgoing command is laid out by [`OutgoingIPCMessage::write`]; a reply
//! is recovered from the bytes received so far by
//! [`IncomingBridgeMessage::read`]. The two layouts are not mirror images of
//! each other: a command leads with its kind, a reply ends with it. Both are
//! built from the conventions of [`wire`]: every scalar is a 64-bit
//! little-endian word, and every sequence is preceded by its length.
//!
//! Nothing here touches a socket. Writers append to a `Vec<u8>` and readers
//! look at a `&[u8]`; moving the bytes is the caller's business.

pub mod channel;
pub mod incoming;
pub mod outgoing;
pub mod wire;

pub use incoming::{IncomingBridgeMessage, Reply};
pub use outgoing::OutgoingIPCMessage;
pub use wire::{write_str, Truncated};
