//! The features replicated over the mesh.
//!
//! Peer connections carry entries for a [`Topic`] without knowing what a topic
//! means; this is where a topic turns back into the thing that owns it. Today
//! there is one, the clipboard.

use crate::clip::model::ClipError;
use crate::clip::state;
use crate::daemon::clip::{ClipService, Order};
use crate::daemon::hub::Hub;
use crate::log::{EndpointId, Watermark, WireEntry};
use crate::net::proto::{topics, Topic};
use crate::time::Time;
use vstd::prelude::*;

verus! {

/// Every replicated feature this daemon runs.
pub struct Topics {
    pub clipboard: ClipService,
}

impl Topics {
    /// Whether everything is in order.
    pub open spec fn wf(&self) -> bool {
        self.clipboard.wf()
    }

    /// What this machine holds of a topic.
    pub open spec fn held(&self, topic: Topic) -> Map<EndpointId, u64> {
        match topic {
            Topic::Clipboard => self.clipboard@.board.log.have,
        }
    }

    /// What this machine holds of a topic.
    pub fn have(&self, topic: Topic) -> (have: Watermark)
        requires
            self.wf(),
        ensures
            have.wf(),
            have@ == self.held(topic),
    {
        match topic {
            Topic::Clipboard => self.clipboard.have(),
        }
    }

    /// The entries a peer at `want` is missing.
    pub fn since(&self, topic: Topic, want: &Watermark) -> (wires: Vec<WireEntry>)
        requires
            self.wf(),
            want.wf(),
        ensures
            match topic {
                Topic::Clipboard => state::sent(wires@, self.clipboard@.board.log, want@),
            },
    {
        match topic {
            Topic::Clipboard => self.clipboard.since(want),
        }
    }

    /// Takes a batch of entries from a peer.
    pub fn accept(&mut self, topic: Topic, entries: Vec<WireEntry>, now: Time) -> (result: Result<
        Vec<Order>,
        ClipError,
    >)
        requires
            old(self).wf(),
        ensures
            final(self).wf(),
            final(self).clipboard.configured() == old(self).clipboard.configured(),
            match topic {
                Topic::Clipboard => match old(self).clipboard@.board.batch_refusal(entries@) {
                    Some(error) => {
                        &&& result == Err::<Vec<Order>, ClipError>(error)
                        &&& final(self).clipboard@ == old(self).clipboard@
                    },
                    None => {
                        &&& result matches Ok(orders)
                        &&& crate::log::all_intact(entries@)
                        &&& old(self).clipboard@.did(
                            old(self).clipboard@.board.accept(entries@, now),
                            orders@,
                            final(self).clipboard@,
                        )
                    },
                },
            },
    {
        match topic {
            Topic::Clipboard => self.clipboard.accept(entries, now),
        }
    }

    /// Announces every topic, at the start and for the periodic anti-entropy
    /// pass.
    pub fn announce_all(&self, hub: &mut Hub)
        requires
            self.wf(),
            old(hub).wf(),
            old(hub)@.seq < u64::MAX,
        ensures
            final(hub).wf(),
            final(hub)@ == old(hub)@.announced(Topic::Clipboard, self.held(Topic::Clipboard)),
            forall|topic: Topic| #[trigger]
                final(hub)@.summaries.contains_key(topic) && final(hub)@.summaries[topic].have
                    == self.held(topic),
    {
        let list = topics();
        let mut i: usize = 0;
        while i < list.len()
            invariant
                i <= list.len(),
                list@ == seq![Topic::Clipboard],
                self.wf(),
                hub.wf(),
                i == 0 ==> hub@ == old(hub)@ && hub@.seq < u64::MAX,
                i == 1 ==> hub@ == old(hub)@.announced(
                    Topic::Clipboard,
                    self.held(Topic::Clipboard),
                ),
            decreases list.len() - i,
        {
            let topic = list[i];
            hub.announce(topic, self.have(topic));
            i += 1;
        }
    }
}

} // verus!
