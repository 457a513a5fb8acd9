//! How the endpoint that carries every peer connection reaches the network.

use vstd::prelude::*;

verus! {

/// How the endpoint reaches the network.
#[derive(Clone, Copy, Debug, PartialEq, Eq, Structural)]
pub enum EndpointOptions {
    /// Public relays for the handshake, then a direct hole-punched path
    /// whenever the network allows one.
    Production,
    /// Hermetic: no relays, no external discovery. Machines find each other by
    /// addresses they share, without leaving the machine.
    LocalTest,
}

impl Default for EndpointOptions {
    fn default() -> (options: Self)
        ensures
            options == EndpointOptions::Production,
    {
        EndpointOptions::Production
    }
}

impl EndpointOptions {
    /// Whether endpoints bound with these options use relays. The pairing host
    /// waits for a relay address before printing a ticket, and there is nothing
    /// to wait for without them.
    pub fn uses_relays(&self) -> (r: bool)
        ensures
            r == (*self == EndpointOptions::Production),
    {
        match self {
            EndpointOptions::Production => true,
            EndpointOptions::LocalTest => false,
        }
    }
}

} // verus!
