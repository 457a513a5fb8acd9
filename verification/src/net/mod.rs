//! What machines say to each other.

pub mod endpoint;
pub mod gossip;
pub mod pair;
pub mod proto;
pub mod ticket;
pub mod wire;
