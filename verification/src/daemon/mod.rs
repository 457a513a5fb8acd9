//! The daemon: the process that does the work.
//!
//! It holds the identity key, so it is the only one that can reach peers; it
//! owns the clipboard and the mesh state, so it is the only writer of either.
//! Whatever it decides is decided here; the reading, the writing and the
//! waiting are left to whoever runs it.

pub mod backoff;
pub mod clip;
pub mod control;
pub mod files;
pub mod hub;
pub mod pairing;
pub mod peers;
pub mod store;
pub mod topics;

use crate::net::{pair, proto};
use vstd::prelude::*;

verus! {

/// Handshakes accepted at once from machines we have not identified yet.
pub const MAX_PENDING_HANDSHAKES: usize = 32;

/// Budget for one handshake, in seconds, so a stalled attempt frees its slot
/// rather than waiting out the transport timeout.
pub const HANDSHAKE_TIMEOUT: u64 = 10;

/// Memberships waiting to be merged. Merging is fast, so a full queue means a
/// flood, and dropping is safe: the periodic pass heals it.
pub const GOSSIP_QUEUE: usize = 16;

/// How often, in seconds, the mesh state and the announcements are re-sent
/// although nothing changed, so anything dropped under load is not lost until
/// the next unrelated change.
pub const ANTI_ENTROPY: u64 = 300;

/// The protocols the daemon serves.
///
/// Pairing is always among them: what gates it is the one-time ticket, not
/// whether the protocol is offered, and an unknown machine can complete a
/// handshake on the replication protocol anyway (it is refused right after,
/// for not being paired).
pub fn alpns() -> (list: Vec<&'static str>)
    ensures
        list@.len() == 2,
        list@[0]@ == proto::ALPN@,
        list@[1]@ == pair::ALPN@,
{
    let mut list: Vec<&'static str> = Vec::new();
    list.push(proto::ALPN);
    list.push(pair::ALPN);
    list
}

/// Where a connection goes once its handshake is done.
#[derive(Clone, Copy, Debug, PartialEq, Eq, Structural)]
pub enum Route {
    /// To the task of the machine, which refuses it when unpaired.
    Peer,
    /// To the pairing state, which refuses it unless a ticket is out.
    Pairing,
    /// Nowhere: it is closed, with that reason.
    Refused,
}

/// What a connection of no protocol is closed with.
pub const UNEXPECTED: &'static str = "unexpected alpn";

/// Where a connection of a protocol goes.
pub open spec fn routed(alpn: Seq<u8>) -> Route {
    if alpn == vstd::utf8::encode_utf8(proto::ALPN@) {
        Route::Peer
    } else if alpn == vstd::utf8::encode_utf8(pair::ALPN@) {
        Route::Pairing
    } else {
        Route::Refused
    }
}

/// Sorts a connection by its protocol.
pub fn route(alpn: &[u8]) -> (route: Route)
    ensures
        route == routed(alpn@),
{
    if pair::same_bytes(alpn, proto::ALPN.as_bytes()) {
        Route::Peer
    } else if pair::same_bytes(alpn, pair::ALPN.as_bytes()) {
        Route::Pairing
    } else {
        Route::Refused
    }
}

/// A connection of either protocol served finds its way.
pub proof fn every_protocol_served_is_routed()
    ensures
        routed(vstd::utf8::encode_utf8(proto::ALPN@)) == Route::Peer,
        routed(vstd::utf8::encode_utf8(pair::ALPN@)) == Route::Pairing,
{
    reveal_strlit("yank/sync/2");
    reveal_strlit("yank/pair/0");
    let a = proto::ALPN@;
    let b = pair::ALPN@;
    assert(a[5] == 's' && b[5] == 'p');
    if vstd::utf8::encode_utf8(a) == vstd::utf8::encode_utf8(b) {
        vstd::utf8::encode_utf8_decode_utf8(a);
        vstd::utf8::encode_utf8_decode_utf8(b);
    }
}

} // verus!
