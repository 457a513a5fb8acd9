//! Sending to peers, without knowing which peers there are.
//!
//! The clipboard has to announce itself to every connected machine, and the
//! mesh state has to be gossiped to them, but neither knows anything about
//! connections. The hub sits in between: it holds one outbox per connected
//! peer, drained by whoever sends to that peer.
//!
//! ```text
//!  clipboard ─┐                    ┌─► outbox(A) ─► peer A
//!             ├─ publish ───► Hub ─┤
//!  mesh state ┘                    └─► outbox(B) ─► peer B
//! ```
//!
//! Outboxes coalesce: one slot for the membership and one per topic, each
//! overwritten by the next publication until it is taken. A peer that is slow,
//! or that just reconnected, therefore receives the current state rather than a
//! backlog of everything it missed. That is safe because everything sent here
//! is idempotent and latest-wins; nothing needs to arrive, only the newest
//! does.
//!
//! The hub also keeps what it last published, and replays it to a peer as it
//! connects. That replay is what makes a machine coming back from offline catch
//! up without anyone having to notice it was gone.

use crate::config::mesh::{Membership, PeerView};
use crate::log::{EndpointId, Watermark};
use crate::net::gossip::UniView;
use crate::net::proto::{Summary, Topic, UniMessage};
use crate::ordmap::{OrdMap, Place, Ranked};
use std::sync::Arc;
use vstd::prelude::*;

verus! {

impl Ranked for Topic {
    open spec fn rank(self) -> int {
        match self {
            Topic::Clipboard => 0,
        }
    }

    proof fn rank_is_unique(a: Self, b: Self) {
    }

    fn place(&self, other: &Self) -> (place: Place) {
        match (self, other) {
            (Topic::Clipboard, Topic::Clipboard) => Place::Same,
        }
    }
}

/// An announcement, for contracts.
#[verifier::ext_equal]
pub struct SummaryView {
    pub topic: Topic,
    pub seq: u64,
    pub have: Map<EndpointId, u64>,
}

impl View for Summary {
    type V = SummaryView;

    open spec fn view(&self) -> SummaryView {
        SummaryView { topic: self.topic, seq: self.seq, have: self.have@ }
    }
}

/// Some announcements, for contracts.
pub open spec fn summary_views(summaries: Map<Topic, Arc<Summary>>) -> Map<Topic, SummaryView> {
    summaries.map_values(|summary: Arc<Summary>| summary@)
}

/// What is waiting to go out to one peer.
struct Pending {
    membership: Option<Arc<Membership>>,
    summaries: OrdMap<Topic, Arc<Summary>>,
}

/// What is waiting to go out to one peer, for contracts.
#[verifier::ext_equal]
pub struct PendingView {
    pub membership: Option<Map<EndpointId, PeerView>>,
    pub summaries: Map<Topic, SummaryView>,
}

impl View for Pending {
    type V = PendingView;

    closed spec fn view(&self) -> PendingView {
        PendingView {
            membership: match self.membership {
                Some(membership) => Some(membership@),
                None => None,
            },
            summaries: summary_views(self.summaries@),
        }
    }
}

/// One message on its way to a peer.
pub enum Outgoing {
    Membership(Arc<Membership>),
    Summary(Arc<Summary>),
}

impl Outgoing {
    /// Whether what the message says is in order.
    pub open spec fn wf(&self) -> bool {
        match *self {
            Outgoing::Membership(membership) => membership.wf(),
            Outgoing::Summary(summary) => summary.have.wf(),
        }
    }

    /// The message, to be sent.
    pub fn message(&self) -> (message: UniMessage)
        requires
            self.wf(),
        ensures
            message.wf(),
            message@ == (match *self {
                Outgoing::Membership(membership) => UniView::Membership(membership@),
                Outgoing::Summary(summary) => UniView::Summary {
                    topic: summary.topic,
                    seq: summary.seq,
                    have: summary.have@,
                },
            }),
    {
        match self {
            Outgoing::Membership(membership) => UniMessage::Membership(
                Membership::clone(&**membership),
            ),
            Outgoing::Summary(summary) => UniMessage::Summary(
                Summary { topic: summary.topic, seq: summary.seq, have: summary.have.clone() },
            ),
        }
    }
}

/// The router between what the daemon publishes and the connected peers.
pub struct Hub {
    peers: OrdMap<EndpointId, Pending>,
    /// Publication counter, monotonic across topics for this run of the
    /// daemon. Streams have no order between them, so this is how a receiver
    /// spots an announcement that arrived out of order.
    seq: u64,
    /// The latest membership, replayed to a connecting peer.
    membership: Arc<Membership>,
    /// The latest announcement per topic, replayed likewise.
    summaries: OrdMap<Topic, Arc<Summary>>,
}

/// The router, for contracts.
#[verifier::ext_equal]
pub struct HubView {
    pub peers: Map<EndpointId, PendingView>,
    pub seq: u64,
    pub membership: Map<EndpointId, PeerView>,
    pub summaries: Map<Topic, SummaryView>,
}

spec fn pending_views(peers: Map<EndpointId, Pending>) -> Map<EndpointId, PendingView> {
    peers.map_values(|pending: Pending| pending@)
}

impl View for Hub {
    type V = HubView;

    closed spec fn view(&self) -> HubView {
        HubView {
            peers: pending_views(self.peers@),
            seq: self.seq,
            membership: self.membership@,
            summaries: summary_views(self.summaries@),
        }
    }
}

impl PendingView {
    /// The outbox once another membership is to go out.
    pub open spec fn with_membership(self, membership: Map<EndpointId, PeerView>) -> PendingView {
        PendingView { membership: Some(membership), ..self }
    }

    /// The outbox once another announcement is to go out.
    pub open spec fn with_summary(self, summary: SummaryView) -> PendingView {
        PendingView { summaries: self.summaries.insert(summary.topic, summary), ..self }
    }
}

impl HubView {
    /// What a peer is sent as it connects: everything there is to say.
    pub open spec fn replay(self) -> PendingView {
        PendingView { membership: Some(self.membership), summaries: self.summaries }
    }

    /// The router once a membership is published.
    pub open spec fn published(self, membership: Map<EndpointId, PeerView>) -> HubView {
        HubView {
            membership,
            peers: self.peers.map_values(
                |pending: PendingView| pending.with_membership(membership),
            ),
            ..self
        }
    }

    /// The router once a topic is announced.
    pub open spec fn announced(self, topic: Topic, have: Map<EndpointId, u64>) -> HubView {
        let summary = SummaryView { topic, seq: (self.seq + 1) as u64, have };
        HubView {
            seq: (self.seq + 1) as u64,
            summaries: self.summaries.insert(topic, summary),
            peers: self.peers.map_values(|pending: PendingView| pending.with_summary(summary)),
            ..self
        }
    }
}

/// The same announcements again, shared.
fn share(summaries: &OrdMap<Topic, Arc<Summary>>) -> (copy: OrdMap<Topic, Arc<Summary>>)
    requires
        summaries.wf(),
    ensures
        copy.wf(),
        copy@ == summaries@,
{
    let mut copy: OrdMap<Topic, Arc<Summary>> = OrdMap::new();
    let n: usize = summaries.len();
    let ghost pairs = summaries.pairs();
    let mut i: usize = 0;
    proof {
        summaries.lemma_pairs();
        assert(pairs.take(0) =~= Seq::empty());
        assert(crate::ordmap::map_of(pairs.take(0)) =~= Map::<Topic, Arc<Summary>>::empty());
    }
    while i < n
        invariant
            i <= n,
            n == pairs.len(),
            summaries.wf(),
            pairs == summaries.pairs(),
            copy.wf(),
            copy@ == crate::ordmap::map_of(pairs.take(i as int)),
        decreases n - i,
    {
        proof {
            summaries.lemma_pairs();
            assert(pairs.take(i + 1) =~= pairs.take(i as int).push(pairs[i as int]));
            crate::ordmap::lemma_map_of_push(pairs.take(i as int), pairs[i as int]);
        }
        copy.insert(summaries.key_at(i), summaries.value_at(i).clone());
        i += 1;
    }
    proof {
        summaries.lemma_pairs();
        assert(pairs.take(i as int) =~= pairs);
    }
    copy
}

/// Changing the value of every key of a map, in order, changes the map
/// throughout.
proof fn lemma_all_changed(
    before: OrdMap<EndpointId, Pending>,
    after: OrdMap<EndpointId, Pending>,
    change: spec_fn(PendingView) -> PendingView,
)
    requires
        before.wf(),
        after.wf(),
        before.pairs().len() == after.pairs().len(),
        forall|k: int|
            0 <= k < before.pairs().len() ==> (#[trigger] after.pairs()[k]).0
                == before.pairs()[k].0 && after.pairs()[k].1@ == change(before.pairs()[k].1@),
    ensures
        pending_views(after@) == pending_views(before@).map_values(change),
{
    before.lemma_pairs();
    after.lemma_pairs();
    let left = pending_views(after@);
    let right = pending_views(before@).map_values(change);
    assert forall|id: EndpointId| #[trigger] left.dom().contains(id) == right.dom().contains(id) by {
        if after@.contains_key(id) {
            let k = choose|k: int|
                0 <= k < after.pairs().len() && (#[trigger] after.pairs()[k]) == (id, after@[id]);
            assert(before@.contains_key(before.pairs()[k].0));
        }
        if before@.contains_key(id) {
            let k = choose|k: int|
                0 <= k < before.pairs().len() && (#[trigger] before.pairs()[k]) == (
                    id,
                    before@[id],
                );
            assert(after.pairs()[k].0 == id);
            assert(after@.contains_key(after.pairs()[k].0));
        }
    }
    assert(left.dom() =~= right.dom());
    assert forall|id: EndpointId| #[trigger] left.contains_key(id) implies left[id] == right[id] by {
        assert(after@.contains_key(id));
        let k = choose|k: int|
            0 <= k < after.pairs().len() && (#[trigger] after.pairs()[k]) == (id, after@[id]);
        assert(before@[before.pairs()[k].0] == before.pairs()[k].1);
    }
    assert(left =~= right);
}

impl Hub {
    /// Whether the outboxes and the publications are in order.
    pub closed spec fn wf(&self) -> bool {
        &&& self.peers.wf()
        &&& self.summaries.wf()
        &&& self.membership.wf()
        &&& forall|topic: Topic| #[trigger]
            self.summaries@.contains_key(topic) ==> self.summaries@[topic].have.wf()
        &&& forall|k: int|
            0 <= k < self.peers.pairs().len() ==> in_order((#[trigger] self.peers.pairs()[k]).1)
    }

    /// No peer connected, and nothing published.
    pub fn new() -> (hub: Self)
        ensures
            hub.wf(),
            hub@ == (HubView {
                peers: Map::empty(),
                seq: 0,
                membership: Map::empty(),
                summaries: Map::empty(),
            }),
    {
        let hub = Hub {
            peers: OrdMap::new(),
            seq: 0,
            membership: Arc::new(Membership { peers: OrdMap::new() }),
            summaries: OrdMap::new(),
        };
        assert(hub@.peers =~= Map::empty());
        assert(hub@.membership =~= Map::empty());
        assert(hub@.summaries =~= Map::empty());
        hub
    }

    /// Starts sending to a peer, replaying the current state to it.
    ///
    /// Returns whether the peer was connected already: the previous
    /// registration is replaced, since two connections to one machine would
    /// each get half the announcements.
    pub fn connected(&mut self, peer: EndpointId) -> (replaced: bool)
        requires
            old(self).wf(),
        ensures
            final(self).wf(),
            replaced == old(self)@.peers.contains_key(peer),
            final(self)@ == (HubView {
                peers: old(self)@.peers.insert(peer, old(self)@.replay()),
                ..old(self)@
            }),
    {
        let ghost before = self@;
        let pending = Pending {
            membership: Some(self.membership.clone()),
            summaries: share(&self.summaries),
        };
        assert(in_order(pending));
        let ghost old_peers = self.peers;
        let previous = self.peers.insert(peer, pending);
        proof {
            assert(self@.peers =~= before.peers.insert(peer, before.replay()));
            lemma_still_in_order(old_peers, self.peers, peer, pending);
        }
        previous.is_some()
    }

    /// Stops sending to a peer, returning whether it was connected.
    pub fn disconnected(&mut self, peer: &EndpointId) -> (was: bool)
        requires
            old(self).wf(),
        ensures
            final(self).wf(),
            was == old(self)@.peers.contains_key(*peer),
            final(self)@ == (HubView { peers: old(self)@.peers.remove(*peer), ..old(self)@ }),
    {
        let ghost before = self@;
        let ghost old_peers = self.peers;
        let previous = self.peers.remove(peer);
        proof {
            assert(self@.peers =~= before.peers.remove(*peer));
            old_peers.lemma_pairs();
            self.peers.lemma_pairs();
            assert forall|k: int| 0 <= k < self.peers.pairs().len() implies in_order(
                (#[trigger] self.peers.pairs()[k]).1,
            ) by {
                let id = self.peers.pairs()[k].0;
                assert(self.peers@.contains_key(id));
                assert(old_peers@.contains_key(id));
                let j = choose|j: int|
                    0 <= j < old_peers.pairs().len() && (#[trigger] old_peers.pairs()[j]) == (
                        id,
                        old_peers@[id],
                    );
                assert(in_order(old_peers.pairs()[j].1));
            }
        }
        previous.is_some()
    }

    /// How many peers are connected right now.
    pub fn peer_count(&self) -> (n: usize)
        requires
            self.wf(),
        ensures
            n == self@.peers.len(),
    {
        proof {
            self.peers.lemma_pairs();
            assert(self@.peers.dom() =~= self.peers@.dom());
        }
        self.peers.len()
    }

    /// Sends the mesh state to every connected peer, and to every peer that
    /// connects later.
    pub fn publish_membership(&mut self, membership: Membership)
        requires
            old(self).wf(),
            membership.wf(),
        ensures
            final(self).wf(),
            final(self)@ == old(self)@.published(membership@),
    {
        let shared = Arc::new(membership);
        let n: usize = self.peers.len();
        let ghost before = self.peers;
        let ghost change = |pending: PendingView| pending.with_membership(membership@);
        let mut i: usize = 0;
        while i < n
            invariant
                i <= n,
                n == before.pairs().len(),
                before.wf(),
                self.peers.wf(),
                self.peers.pairs().len() == n,
                self.seq == old(self).seq,
                self.summaries == old(self).summaries,
                shared@ == membership@,
                shared.wf(),
                change == (|pending: PendingView| pending.with_membership(membership@)),
                forall|k: int| 0 <= k < n ==> in_order((#[trigger] self.peers.pairs()[k]).1),
                forall|k: int|
                    0 <= k < n ==> (#[trigger] self.peers.pairs()[k]).0 == before.pairs()[k].0,
                forall|k: int|
                    0 <= k < i ==> (#[trigger] self.peers.pairs()[k]).1@ == change(
                        before.pairs()[k].1@,
                    ),
                forall|k: int|
                    i <= k < n ==> (#[trigger] self.peers.pairs()[k]).1 == before.pairs()[k].1,
            decreases n - i,
        {
            let ghost was = self.peers.pairs();
            assert(in_order(was[i as int].1));
            let pending = self.peers.value_mut(i);
            pending.membership = Some(shared.clone());
            assert(self.peers.pairs()[i as int].1@ =~= change(was[i as int].1@));
            i += 1;
        }
        self.membership = shared;
        proof {
            lemma_all_changed(before, self.peers, change);
            assert(self@ =~= old(self)@.published(membership@));
        }
    }

    /// Whether there is a number left for another announcement.
    pub fn can_announce(&self) -> (r: bool)
        ensures
            r == (self@.seq < u64::MAX),
    {
        self.seq < u64::MAX
    }

    /// Announces what this machine holds of a topic.
    pub fn announce(&mut self, topic: Topic, have: Watermark)
        requires
            old(self).wf(),
            have.wf(),
            old(self)@.seq < u64::MAX,
        ensures
            final(self).wf(),
            final(self)@ == old(self)@.announced(topic, have@),
    {
        let ghost marks = have@;
        let seq: u64 = self.seq + 1;
        let shared = Arc::new(Summary { topic, seq, have });
        let ghost summary = SummaryView { topic, seq, have: marks };
        let n: usize = self.peers.len();
        let ghost before = self.peers;
        let ghost change = |pending: PendingView| pending.with_summary(summary);
        let mut i: usize = 0;
        while i < n
            invariant
                i <= n,
                n == before.pairs().len(),
                before.wf(),
                self.peers.wf(),
                self.peers.pairs().len() == n,
                self.seq == old(self).seq,
                self.summaries == old(self).summaries,
                self.membership == old(self).membership,
                shared@ == summary,
                shared.have.wf(),
                shared.topic == topic,
                summary.topic == topic,
                change == (|pending: PendingView| pending.with_summary(summary)),
                forall|k: int| 0 <= k < n ==> in_order((#[trigger] self.peers.pairs()[k]).1),
                forall|k: int|
                    0 <= k < n ==> (#[trigger] self.peers.pairs()[k]).0 == before.pairs()[k].0,
                forall|k: int|
                    0 <= k < i ==> (#[trigger] self.peers.pairs()[k]).1@ == change(
                        before.pairs()[k].1@,
                    ),
                forall|k: int|
                    i <= k < n ==> (#[trigger] self.peers.pairs()[k]).1 == before.pairs()[k].1,
            decreases n - i,
        {
            let ghost was = self.peers.pairs();
            assert(in_order(was[i as int].1));
            let pending = self.peers.value_mut(i);
            pending.summaries.insert(topic, shared.clone());
            assert(self.peers.pairs()[i as int].1@ =~= change(was[i as int].1@));
            i += 1;
        }
        self.seq = seq;
        self.summaries.insert(topic, shared);
        proof {
            lemma_all_changed(before, self.peers, change);
            assert(self@ =~= old(self)@.announced(topic, marks));
        }
    }

    /// Takes the next message for a peer, the membership first: a machine
    /// should learn who is in the mesh before it is told what to fetch.
    pub fn pop(&mut self, peer: &EndpointId) -> (message: Option<Outgoing>)
        requires
            old(self).wf(),
        ensures
            final(self).wf(),
            message matches Some(message) ==> message.wf(),
            popped(old(self)@, *peer, outgoing_view(message), final(self)@),
    {
        if !self.peers.contains_key(peer) {
            return None;
        }
        let n: usize = self.peers.len();
        let mut i: usize = 0;
        proof {
            self.peers.lemma_pairs();
        }
        while i < n
            invariant
                i <= n,
                n == self.peers.pairs().len(),
                *self == *old(self),
                self.wf(),
                self.peers@.contains_key(*peer),
                forall|k: int| 0 <= k < i ==> (#[trigger] self.peers.pairs()[k]).0 != *peer,
            decreases n - i,
        {
            if self.peers.key_at(i) == *peer {
                return self.pop_at(i);
            }
            i += 1;
        }
        proof {
            self.peers.lemma_pairs();
            let k = choose|k: int|
                0 <= k < self.peers.pairs().len() && (#[trigger] self.peers.pairs()[k]) == (
                    *peer,
                    self.peers@[*peer],
                );
            assert(self.peers.pairs()[k].0 == *peer);
        }
        None
    }

    /// Takes the next message for the peer at a place.
    fn pop_at(&mut self, i: usize) -> (message: Option<Outgoing>)
        requires
            old(self).wf(),
            i < old(self).peers.pairs().len(),
        ensures
            final(self).wf(),
            message matches Some(message) ==> message.wf(),
            popped(
                old(self)@,
                old(self).peers.pairs()[i as int].0,
                outgoing_view(message),
                final(self)@,
            ),
    {
        let ghost before = *self;
        let ghost id = self.peers.pairs()[i as int].0;
        proof {
            self.peers.lemma_pairs();
            assert(in_order(self.peers.pairs()[i as int].1));
            assert(self.peers@.contains_key(id));
            assert(self@.peers[id] == self.peers.pairs()[i as int].1@);
        }
        let pending = self.peers.value_mut(i);
        let ghost was = *pending;
        let message = pending.pop();
        let ghost now = *pending;
        proof {
            assert(self.peers.pairs() =~= before.peers.pairs().update(i as int, (id, now)));
            assert forall|k: int| 0 <= k < self.peers.pairs().len() implies in_order(
                (#[trigger] self.peers.pairs()[k]).1,
            ) by {
                if k != i {
                    assert(in_order(before.peers.pairs()[k].1));
                }
            }
            assert(self@.peers =~= before@.peers.insert(id, now@));
            assert(self@ =~= (HubView { peers: before@.peers.insert(id, now@), ..before@ }));
        }
        message
    }
}

/// Whether an outbox is in order.
spec fn in_order(pending: Pending) -> bool {
    &&& pending.summaries.wf()
    &&& pending.membership matches Some(membership) ==> membership.wf()
    &&& forall|topic: Topic| #[trigger]
        pending.summaries@.contains_key(topic) ==> pending.summaries@[topic].have.wf()
}

proof fn lemma_still_in_order(
    before: OrdMap<EndpointId, Pending>,
    after: OrdMap<EndpointId, Pending>,
    peer: EndpointId,
    pending: Pending,
)
    requires
        before.wf(),
        after.wf(),
        after@ == before@.insert(peer, pending),
        in_order(pending),
        forall|k: int| 0 <= k < before.pairs().len() ==> in_order((#[trigger] before.pairs()[k]).1),
    ensures
        forall|k: int| 0 <= k < after.pairs().len() ==> in_order((#[trigger] after.pairs()[k]).1),
{
    before.lemma_pairs();
    after.lemma_pairs();
    assert forall|k: int| 0 <= k < after.pairs().len() implies in_order(
        (#[trigger] after.pairs()[k]).1,
    ) by {
        let id = after.pairs()[k].0;
        assert(after@.contains_key(id));
        if id != peer {
            assert(before@.contains_key(id));
            let j = choose|j: int|
                0 <= j < before.pairs().len() && (#[trigger] before.pairs()[j]) == (
                    id,
                    before@[id],
                );
            assert(in_order(before.pairs()[j].1));
        }
    }
}

/// One message on its way to a peer, for contracts.
pub enum OutgoingView {
    Membership(Map<EndpointId, PeerView>),
    Summary(SummaryView),
}

/// What came out of an outbox.
pub open spec fn outgoing_view(message: Option<Outgoing>) -> Option<OutgoingView> {
    match message {
        Some(Outgoing::Membership(membership)) => Some(OutgoingView::Membership(membership@)),
        Some(Outgoing::Summary(summary)) => Some(OutgoingView::Summary(summary@)),
        None => None,
    }
}

/// Whether this is what taking a message out of an outbox does: the membership
/// goes first, then the announcements in the order of their topics, and what is
/// taken is no longer there.
pub open spec fn drained(
    before: PendingView,
    message: Option<OutgoingView>,
    after: PendingView,
) -> bool {
    match before.membership {
        Some(membership) => message == Some(OutgoingView::Membership(membership)) && after
            == (PendingView { membership: None, ..before }),
        None => match message {
            None => before.summaries == Map::<Topic, SummaryView>::empty() && after == before,
            Some(OutgoingView::Membership(_)) => false,
            Some(OutgoingView::Summary(summary)) => exists|topic: Topic|
                {
                    &&& #[trigger] before.summaries.contains_key(topic)
                    &&& before.summaries[topic] == summary
                    &&& forall|other: Topic| #[trigger]
                        before.summaries.contains_key(other) ==> topic.rank() <= other.rank()
                    &&& after == (PendingView {
                        summaries: before.summaries.remove(topic),
                        ..before
                    })
                },
        },
    }
}

/// Whether this is what taking the next message for a peer does.
pub open spec fn popped(
    before: HubView,
    peer: EndpointId,
    message: Option<OutgoingView>,
    after: HubView,
) -> bool {
    if before.peers.contains_key(peer) {
        &&& after.peers.contains_key(peer)
        &&& drained(before.peers[peer], message, after.peers[peer])
        &&& after == (HubView {
            peers: before.peers.insert(peer, after.peers[peer]),
            ..before
        })
    } else {
        message is None && after == before
    }
}

impl Pending {
    /// Takes the next message.
    fn pop(&mut self) -> (message: Option<Outgoing>)
        requires
            in_order(*old(self)),
        ensures
            in_order(*final(self)),
            message matches Some(message) ==> message.wf(),
            drained(old(self)@, outgoing_view(message), final(self)@),
    {
        let taken = self.membership.take();
        match taken {
            Some(membership) => {
                assert(self@ =~= (PendingView { membership: None, ..old(self)@ }));
                return Some(Outgoing::Membership(membership));
            },
            None => {},
        }
        let ghost before = *self;
        if self.summaries.len() == 0 {
            proof {
                self.summaries.lemma_pairs();
                assert(self@.summaries =~= Map::<Topic, SummaryView>::empty());
                assert(self@ =~= old(self)@);
            }
            return None;
        }
        let topic = self.summaries.key_at(0);
        proof {
            before.summaries.lemma_pairs();
            assert(before.summaries@.contains_key(before.summaries.pairs()[0].0));
            assert forall|other: Topic| #[trigger]
                before@.summaries.contains_key(other) implies topic.rank() <= other.rank() by {
                assert(before.summaries@.contains_key(other));
                let k = choose|k: int|
                    0 <= k < before.summaries.pairs().len() && (
                    #[trigger] before.summaries.pairs()[k]) == (other, before.summaries@[other]);
                assert(before.summaries.pairs()[0].0.rank() <= before.summaries.pairs()[k].0.rank());
            }
            assert(before@.summaries.contains_key(topic));
        }
        let summary = self.summaries.remove(&topic);
        proof {
            assert(self@ =~= (PendingView {
                summaries: before@.summaries.remove(topic),
                ..before@
            }));
            assert(before@ =~= old(self)@);
        }
        match summary {
            Some(summary) => Some(Outgoing::Summary(summary)),
            None => None,
        }
    }
}

/// A publication overwrites the one before it: a peer that has not taken the
/// first is only ever sent the second.
pub proof fn the_newest_wins(
    hub: HubView,
    first: Map<EndpointId, PeerView>,
    second: Map<EndpointId, PeerView>,
    topic: Topic,
    had: Map<EndpointId, u64>,
    have: Map<EndpointId, u64>,
)
    requires
        hub.seq + 2 <= u64::MAX,
    ensures
        hub.published(first).published(second) == hub.published(second),
        forall|peer: EndpointId| #[trigger]
            hub.peers.contains_key(peer) ==> hub.announced(topic, had).announced(
                topic,
                have,
            ).peers[peer].summaries[topic].have == have,
{
    assert(hub.published(first).published(second).peers =~= hub.published(second).peers);
}

/// A peer that connects is sent what everyone else was last sent: the
/// membership and every announcement, whatever it missed.
pub proof fn a_connecting_peer_catches_up(
    hub: HubView,
    membership: Map<EndpointId, PeerView>,
    topic: Topic,
    have: Map<EndpointId, u64>,
)
    requires
        hub.seq < u64::MAX,
    ensures
        hub.published(membership).replay().membership == Some(membership),
        hub.announced(topic, have).replay().summaries[topic].have == have,
        hub.announced(topic, have).replay().summaries[topic].seq == hub.seq + 1,
{
}

/// Announcements are numbered: each has a higher number than every one before
/// it, so that a receiver can tell which is newer.
pub proof fn announcements_are_numbered(hub: HubView, topic: Topic, have: Map<EndpointId, u64>)
    requires
        hub.seq < u64::MAX,
    ensures
        hub.announced(topic, have).seq > hub.seq,
        hub.announced(topic, have).summaries[topic].seq == hub.announced(topic, have).seq,
{
}

/// What is published is on its way to every connected peer, and to whoever
/// connects next; what else is on its way to it stays.
pub proof fn what_is_published_reaches_every_peer(
    hub: HubView,
    membership: Map<EndpointId, PeerView>,
    topic: Topic,
    have: Map<EndpointId, u64>,
    peer: EndpointId,
    other: Topic,
)
    requires
        hub.seq < u64::MAX,
    ensures
        ({
            let after = hub.published(membership);
            &&& after.peers.contains_key(peer) <==> hub.peers.contains_key(peer)
            &&& hub.peers.contains_key(peer) ==> after.peers[peer].membership == Some(membership)
                && after.peers[peer].summaries == hub.peers[peer].summaries
            &&& after.membership == membership
            &&& after.summaries == hub.summaries
            &&& after.seq == hub.seq
        }),
        ({
            let after = hub.announced(topic, have);
            let summary = SummaryView { topic, seq: (hub.seq + 1) as u64, have };
            &&& after.peers.contains_key(peer) <==> hub.peers.contains_key(peer)
            &&& hub.peers.contains_key(peer) ==> {
                &&& after.peers[peer].summaries.contains_key(topic)
                &&& after.peers[peer].summaries[topic] == summary
                &&& hub.peers[peer].summaries.contains_key(other)
                    ==> after.peers[peer].summaries.contains_key(other)
                &&& other != topic && hub.peers[peer].summaries.contains_key(other)
                    ==> after.peers[peer].summaries[other] == hub.peers[peer].summaries[other]
                &&& after.peers[peer].membership == hub.peers[peer].membership
            }
            &&& after.summaries.contains_key(topic)
            &&& after.summaries[topic] == summary
            &&& hub.summaries.contains_key(other) ==> after.summaries.contains_key(other)
            &&& after.membership == hub.membership
            &&& after.seq == hub.seq + 1
        }),
        hub.replay().membership == Some(hub.membership),
        hub.replay().summaries == hub.summaries,
{
}

/// What is on its way to a peer is sent: as long as there is something, taking a
/// message gives one of them, and leaves the others.
pub proof fn what_is_on_its_way_is_sent(
    before: HubView,
    peer: EndpointId,
    message: Option<OutgoingView>,
    after: HubView,
    topic: Topic,
)
    requires
        popped(before, peer, message, after),
        before.peers.contains_key(peer),
    ensures
        ({
            let had = before.peers[peer];
            let left = after.peers[peer];
            &&& message is None ==> had.membership is None && !had.summaries.contains_key(topic)
            &&& had.membership matches Some(membership) ==> message == Some(
                OutgoingView::Membership(membership),
            ) && left.membership is None && left.summaries == had.summaries
            &&& message matches Some(OutgoingView::Summary(summary)) ==> had.membership is None && (
            had.summaries.contains_key(topic) ==> had.summaries[topic] == summary || (
            left.summaries.contains_key(topic) && left.summaries[topic] == had.summaries[topic]))
            &&& left.summaries.contains_key(topic) ==> had.summaries.contains_key(topic)
        }),
        forall|other: EndpointId|
            other != peer && #[trigger] before.peers.contains_key(other)
                ==> after.peers.contains_key(other) && after.peers[other] == before.peers[other],
{
    let had = before.peers[peer];
    if had.membership is None && message is None {
        assert(!Map::<Topic, SummaryView>::empty().contains_key(topic));
    }
}


} // verus!
