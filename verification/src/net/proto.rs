//! What machines say to each other once connected.
//!
//! Everything rides one persistent connection per peer. Small, idempotent
//! state goes out on one-shot streams ([`UniMessage`]); pulling entries takes
//! a stream both ways, since the answer is a stream of frames the receiver has
//! to bound.
//!
//! ```text
//! ── uni: membership ──►  who is in the mesh
//! ── uni: summary ─────►  what I hold, per topic
//! ◄─ bi:  entries ──────  what you hold that I lack
//! ── bi:  entry, …, end ►
//! ◄─ bi:  content ──────  the bytes named by this hash
//! ── bi:  sending, … ───►
//! ```
//!
//! Every size below is a cap the *receiver* enforces. A peer is authenticated,
//! which is not the same as trusted with our memory.

use crate::config::mesh::{Membership, MAX_MESH_PEERS};
use crate::files;
use crate::log::{Watermark, WireEntry};
use vstd::prelude::*;

verus! {

/// The name of the replication protocol. Bumped whenever the wire format
/// changes, so mismatched daemons refuse each other instead of misreading each
/// other.
pub const ALPN: &'static str = "yank/sync/2";

/// Cap on a message of a one-shot stream. Sized for the largest legitimate
/// one, a membership listing a full mesh, with room to spare.
pub const MAX_UNI_SIZE: u32 = 65_536;

/// Cap on what opens a stream both ways.
pub const MAX_REQUEST_SIZE: u32 = 16_384;

/// How much of a content transfer is read at a time.
pub const CONTENT_CHUNK: usize = 262_144;

/// Cap on one frame of a fetch response: an entry at the protocol ceiling plus
/// its envelope.
pub const MAX_FRAME_SIZE: u32 = 4_259_840;

/// Cap on the entries one fetch response may carry, so a peer cannot keep a
/// stream open forever by never sending [`FetchFrame::End`].
pub const MAX_FETCH_ENTRIES: usize = 4096;

/// The feature a message belongs to.
#[derive(Clone, Copy, Debug, PartialEq, Eq, Structural)]
#[non_exhaustive]
pub enum Topic {
    Clipboard,
}

/// Every topic this build replicates, for the loops that have to touch all of
/// them.
pub fn topics() -> (list: Vec<Topic>)
    ensures
        list@ == seq![Topic::Clipboard],
        forall|topic: Topic| list@.contains(topic),
{
    let mut list: Vec<Topic> = Vec::new();
    list.push(Topic::Clipboard);
    assert(list@[0] == Topic::Clipboard);
    assert forall|topic: Topic| list@.contains(topic) by {
        assert(list@[0] == topic);
    }
    list
}

/// A message on a one-shot stream.
pub enum UniMessage {
    /// The sender's whole view of the mesh.
    Membership(Membership),
    /// What the sender holds of a topic's log.
    Summary(Summary),
}

/// An announcement of what the sender holds.
///
/// Sent when the log changes, when a peer connects, and periodically.
/// Announcements are idempotent and latest-wins: a lost one is healed by the
/// next, so nothing here needs delivery guarantees.
pub struct Summary {
    pub topic: Topic,
    /// Sender-wide publication counter, monotonic for the daemon's run. Streams
    /// carry no order between them, so this is what lets a receiver drop an
    /// announcement that overtook a newer one.
    pub seq: u64,
    pub have: Watermark,
}

/// What opens a stream both ways.
#[non_exhaustive]
pub enum Ask {
    /// Send me the entries of a topic I lack.
    Entries(FetchRequest),
    /// Send me the bytes named by a hash.
    Content(ContentRequest),
}

/// Opens a pull: "send me everything past this".
pub struct FetchRequest {
    pub topic: Topic,
    pub since: Watermark,
}

/// Asks for content named by an entry, and says how much of it is already
/// here: a transfer that died halfway resumes rather than starting over.
#[derive(Clone, Copy, Debug, PartialEq, Eq, Structural)]
pub struct ContentRequest {
    pub hash: files::Hash,
    pub at: u64,
}

/// What comes back before the bytes of a content transfer.
#[derive(Clone, Copy, Debug, PartialEq, Eq, Structural)]
#[non_exhaustive]
pub enum ContentReply {
    /// This many bytes follow, being what is left after the offset asked for.
    /// The receiver knows what the whole should weigh, and what it should hash
    /// to, from the entry that named it.
    Sending { size: u64 },
    /// Not on this machine. Another peer may have it, and the machine that
    /// copied it may not be up.
    Missing,
}

/// One frame of a fetch response.
#[derive(Debug)]
pub enum FetchFrame {
    Entry(WireEntry),
    /// The server has nothing more. Distinguishes a finished pull from a
    /// connection that died halfway.
    End,
}

/// Why a message of a peer is refused.
#[derive(Clone, Copy, Debug, PartialEq, Eq, Structural)]
pub enum MessageError {
    /// The membership lists more machines than a mesh has.
    MembershipTooLarge,
    /// The summary mentions more machines than a mesh has.
    SummaryTooLarge,
}

impl UniMessage {
    /// Whether what the message holds is in order.
    pub open spec fn wf(&self) -> bool {
        match *self {
            UniMessage::Membership(membership) => membership.wf(),
            UniMessage::Summary(summary) => summary.have.wf(),
        }
    }

    /// Refuses a message that is structurally too big to be legitimate. What
    /// is stored is capped later regardless; this keeps the flood off the
    /// queue in the first place.
    pub fn validate(&self) -> (result: Result<(), MessageError>)
        requires
            self.wf(),
        ensures
            match *self {
                UniMessage::Membership(membership) => result == (if membership@.len()
                    <= MAX_MESH_PEERS {
                    Ok::<(), MessageError>(())
                } else {
                    Err(MessageError::MembershipTooLarge)
                }),
                UniMessage::Summary(summary) => result == (if summary.have@.len()
                    <= MAX_MESH_PEERS {
                    Ok::<(), MessageError>(())
                } else {
                    Err(MessageError::SummaryTooLarge)
                }),
            },
    {
        match self {
            UniMessage::Membership(membership) => {
                let n: usize = membership.peers.len();
                proof {
                    assert(membership@.dom() =~= membership.peers@.dom());
                }
                if n <= MAX_MESH_PEERS {
                    Ok(())
                } else {
                    Err(MessageError::MembershipTooLarge)
                }
            },
            UniMessage::Summary(summary) => if summary.have.origins() <= MAX_MESH_PEERS {
                Ok(())
            } else {
                Err(MessageError::SummaryTooLarge)
            },
        }
    }
}

} // verus!
