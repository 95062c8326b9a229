//! The router's processing hook. A host that routes messages through
//! channels implements [`Handler`] for its own state; the routing loop
//! itself, which owns the channels, lives with the host.

use vstd::prelude::*;
use crate::message::{Message, MessageContent};

verus! {

/// A message processor: a router hands each inbound message to
/// `process` and forwards what it returns.
pub trait Handler: Sized {
    /// The payload kind this handler processes.
    type T: MessageContent;

    fn process(&self, msg: &Message<Self::T>) -> Message<Self::T>;
}

} // verus!
