//! Events that a server raises for a client session.
use vstd::prelude::*;

verus! {

/// A session has received a complete message.
#[derive(Debug, PartialEq, Eq)]
pub struct PacketReceived {
    pub session_id: u32,
    /// The message, serialised.
    pub data: Vec<u8>,
}

/// A session is to be closed.
#[derive(Debug, Clone, Copy, PartialEq, Eq, Structural)]
pub struct KickSession {
    pub session_id: u32,
}

} // verus!
