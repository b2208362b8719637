//! Errors of message transports.

use vstd::prelude::*;
use crate::types::Message;

verus! {

/// Declares `std::io::Error` to Verus; its values are carried through, never inspected.
#[verifier::external_type_specification]
#[verifier::external_body]
pub struct ExIoError(std::io::Error);

/// What can go wrong when sending or receiving messages.
#[derive(Debug)]
pub enum Error {
    /// A frame could not be encoded or decoded.
    Serialization(String),
    /// The network layer failed.
    Io(std::io::Error),
}

/// The result of a transport operation.
pub type Result<T> = core::result::Result<T, Error>;

/// A transport delivers [`Message`] frames; it does not own state.
pub trait Transport {
    /// Sends one message to the configured peer.
    fn send(&self, msg: &Message) -> Result<()>;

    /// Receives one message if one is waiting.
    fn try_recv(&self) -> Result<Option<Message>>;
}

} // verus!
