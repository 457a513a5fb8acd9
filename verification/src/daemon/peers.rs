//! Peer connections.
//!
//! One task per paired machine holds a connection open: dial, hold, redial with
//! a growing delay. Both machines dial each other, and the duplicate is
//! resolved the same way on both sides (the connection whose *dialer* has the
//! lower endpoint id survives), so a pair settles on one connection instead of
//! tearing each other's down in turn.
//!
//! The set also *is* the allowlist: an incoming connection whose machine is not
//! paired has nowhere to be routed and is refused.
//!
//! ```text
//!   incoming uni  ─► membership  ─► the mesh state
//!                 └─ summary     ─► the fetcher below
//!   incoming bi   ─► fetch request ─► entries streamed back
//!   fetcher       ─► fetch request ─► entries handed to the topic
//! ```

use crate::config::mesh;
use crate::config::mesh::{MeshState, PeerView};
use crate::daemon::backoff;
use crate::daemon::backoff::Backoff;
use crate::daemon::control::{ConnectionStatus, PeerStatus, Route};
use crate::log;
use crate::log::{EndpointId, Watermark, WireEntry};
use crate::net::proto::{FetchFrame, MAX_FETCH_ENTRIES};
use crate::ordmap;
use crate::ordmap::{OrdMap, Place, Ranked};
use crate::text;
use crate::time::{Span, Time};
use vstd::prelude::*;

verus! {

/// Incoming one-shot streams handled at once per connection.
pub const MAX_UNI_STREAMS: usize = 16;

/// Incoming fetch requests served at once per connection.
pub const MAX_FETCH_STREAMS: usize = 4;

/// How long, in seconds, a peer has to say what it opened a stream for.
pub const STREAM_READ_TIMEOUT: u64 = 10;

/// How long, in seconds, one pull may take.
pub const FETCH_TIMEOUT: u64 = 60;

/// Announcements waiting to be acted on, per peer.
pub const SUMMARY_QUEUE: usize = 16;

/// Seconds before redialing after a first failure; doubles up to the ceiling.
pub const BACKOFF_MIN: u64 = 1;

/// The most seconds before redialing.
pub const BACKOFF_MAX: u64 = 60;

/// A connection that lasted this many seconds resets the delay. Connections
/// dying younger (closed as a duplicate, or a machine that keeps flapping)
/// advance it instead, so an establish-then-close cycle cannot redial hot.
pub const STABLE_UPTIME: u64 = 10;

/// The paired machines, by the names they are shown under.
pub struct PeerSet {
    names: OrdMap<EndpointId, String>,
}

/// Names, for contracts.
pub open spec fn name_views(names: Map<EndpointId, String>) -> Map<EndpointId, Seq<char>> {
    names.map_values(|name: String| name@)
}

impl View for PeerSet {
    type V = Map<EndpointId, Seq<char>>;

    closed spec fn view(&self) -> Map<EndpointId, Seq<char>> {
        name_views(self.names@)
    }
}

/// The machines that are in the mesh, with their names.
pub open spec fn desired(peers: Map<EndpointId, PeerView>) -> Map<EndpointId, Seq<char>> {
    Map::new(|id: EndpointId| mesh::alive(peers, id), |id: EndpointId| peers[id].name->0)
}

/// What brings the running tasks in line with the mesh.
pub struct Changes {
    /// The machines that left: their tasks stop.
    pub removed: Vec<EndpointId>,
    /// The machines that go by another name: that must not cost the live
    /// connection.
    pub renamed: Vec<EndpointId>,
    /// The machines that joined: each gets a task.
    pub added: Vec<EndpointId>,
}

impl PeerSet {
    /// Whether the machines are in order.
    pub closed spec fn wf(&self) -> bool {
        self.names.wf()
    }

    /// No machine.
    pub fn new() -> (set: Self)
        ensures
            set.wf(),
            set@ == Map::<EndpointId, Seq<char>>::empty(),
    {
        let set = PeerSet { names: OrdMap::new() };
        assert(set@ =~= Map::<EndpointId, Seq<char>>::empty());
        set
    }

    /// Whether an incoming connection of a machine is taken: machines that are
    /// not paired are refused.
    pub fn admits(&self, id: &EndpointId) -> (r: bool)
        requires
            self.wf(),
        ensures
            r == self@.contains_key(*id),
    {
        self.names.contains_key(id)
    }

    /// The name a machine is shown under.
    pub fn name(&self, id: &EndpointId) -> (name: Option<&str>)
        requires
            self.wf(),
        ensures
            match name {
                Some(name) => self@.contains_key(*id) && self@[*id] == name@,
                None => !self@.contains_key(*id),
            },
    {
        match self.names.get(id) {
            Some(name) => Some(name.as_str()),
            None => None,
        }
    }

    /// The machines of the set that are no longer in the mesh.
    fn gone(&self, state: &MeshState) -> (ids: Vec<EndpointId>)
        requires
            self.wf(),
            state.wf(),
        ensures
            ids@ == ordmap::in_order(self@.dom()).filter(
                |id: EndpointId| !desired(state@).contains_key(id),
            ),
    {
        let n: usize = self.names.len();
        let ghost keys = Seq::new(self.names.pairs().len(), |k: int| self.names.pairs()[k].0);
        let ghost p = |id: EndpointId| !desired(state@).contains_key(id);
        proof {
            self.lemma_keys(keys);
            reveal(Seq::filter);
            assert(keys.take(0) =~= Seq::<EndpointId>::empty());
        }
        let mut ids: Vec<EndpointId> = Vec::new();
        let mut i: usize = 0;
        while i < n
            invariant
                i <= n,
                n == self.names.pairs().len(),
                self.wf(),
                state.wf(),
                keys == Seq::new(self.names.pairs().len(), |k: int| self.names.pairs()[k].0),
                p == (|id: EndpointId| !desired(state@).contains_key(id)),
                ids@ == keys.take(i as int).filter(p),
            decreases n - i,
        {
            let id = self.names.key_at(i);
            proof {
                reveal(Seq::filter);
                assert(keys.take(i + 1).drop_last() =~= keys.take(i as int));
                assert(keys.take(i + 1).last() == id);
            }
            if state.peer_name(&id).is_none() {
                ids.push(id);
            }
            i += 1;
        }
        assert(keys.take(i as int) =~= keys);
        ids
    }

    /// The machines of the set that go by another name in the mesh.
    fn moved(&self, state: &MeshState) -> (ids: Vec<EndpointId>)
        requires
            self.wf(),
            state.wf(),
        ensures
            ids@ == ordmap::in_order(self@.dom()).filter(
                |id: EndpointId|
                    desired(state@).contains_key(id) && desired(state@)[id] != self@[id],
            ),
    {
        let n: usize = self.names.len();
        let ghost keys = Seq::new(self.names.pairs().len(), |k: int| self.names.pairs()[k].0);
        let ghost p = |id: EndpointId|
            desired(state@).contains_key(id) && desired(state@)[id] != self@[id];
        proof {
            self.lemma_keys(keys);
            reveal(Seq::filter);
            assert(keys.take(0) =~= Seq::<EndpointId>::empty());
        }
        let mut ids: Vec<EndpointId> = Vec::new();
        let mut i: usize = 0;
        while i < n
            invariant
                i <= n,
                n == self.names.pairs().len(),
                self.wf(),
                state.wf(),
                keys == Seq::new(self.names.pairs().len(), |k: int| self.names.pairs()[k].0),
                p == (|id: EndpointId|
                    desired(state@).contains_key(id) && desired(state@)[id] != self@[id]),
                ids@ == keys.take(i as int).filter(p),
            decreases n - i,
        {
            let id = self.names.key_at(i);
            proof {
                reveal(Seq::filter);
                assert(keys.take(i + 1).drop_last() =~= keys.take(i as int));
                assert(keys.take(i + 1).last() == id);
                self.names.lemma_pairs();
                assert(self.names@.contains_key(self.names.pairs()[i as int].0));
                assert(self@[id] == self.names.pairs()[i as int].1@);
            }
            match state.peer_name(&id) {
                Some(name) => {
                    if !text::same(name, self.names.value_at(i).as_str()) {
                        ids.push(id);
                    }
                },
                None => {},
            }
            i += 1;
        }
        assert(keys.take(i as int) =~= keys);
        ids
    }

    /// The keys of the set are its machines in order.
    proof fn lemma_keys(&self, keys: Seq<EndpointId>)
        requires
            self.wf(),
            keys == Seq::new(self.names.pairs().len(), |k: int| self.names.pairs()[k].0),
        ensures
            ordmap::in_order(self@.dom()) == keys,
    {
        self.names.lemma_pairs();
        let pairs = self.names.pairs();
        assert forall|i: int, j: int| 0 <= i < j < keys.len() implies (#[trigger] keys[i]).rank()
            < (#[trigger] keys[j]).rank() by {
            assert(pairs[i].0.rank() < pairs[j].0.rank());
        }
        assert forall|id: EndpointId| keys.contains(id) == #[trigger] self@.dom().contains(id) by {
            if keys.contains(id) {
                let k = choose|k: int| 0 <= k < keys.len() && keys[k] == id;
                assert(self.names@.contains_key(pairs[k].0));
            }
            if self@.dom().contains(id) {
                assert(self.names@.contains_key(id));
                let k = choose|k: int|
                    0 <= k < pairs.len() && (#[trigger] pairs[k]) == (id, self.names@[id]);
                assert(keys[k] == id);
            }
        }
        ordmap::lemma_in_order(keys, self@.dom());
    }

    /// Brings the set in line with the mesh state: every machine in it, under
    /// its name, and none of the ones that left. Returns what that means for
    /// the running tasks.
    pub fn sync(&mut self, state: &MeshState) -> (changes: Changes)
        requires
            old(self).wf(),
            state.wf(),
        ensures
            final(self).wf(),
            final(self)@ == desired(state@),
            changes.removed@ == ordmap::in_order(old(self)@.dom()).filter(
                |id: EndpointId| !desired(state@).contains_key(id),
            ),
            changes.renamed@ == ordmap::in_order(old(self)@.dom()).filter(
                |id: EndpointId|
                    desired(state@).contains_key(id) && desired(state@)[id] != old(self)@[id],
            ),
            changes.added@ == ordmap::in_order(desired(state@).dom()).filter(
                |id: EndpointId| !old(self)@.contains_key(id),
            ),
    {
        let removed = self.gone(state);
        let renamed = self.moved(state);
        let alive = state.alive_peers();
        let ghost keys = Seq::new(alive@.len(), |k: int| alive@[k].0);
        let ghost wanted = desired(state@);
        let ghost before = self@;
        let ghost p = |id: EndpointId| !before.contains_key(id);
        let mut names: OrdMap<EndpointId, String> = OrdMap::new();
        let mut added: Vec<EndpointId> = Vec::new();
        let mut i: usize = 0;
        proof {
            reveal(Seq::filter);
            assert(keys.take(0) =~= Seq::<EndpointId>::empty());
            assert(name_views(names@) =~= Map::<EndpointId, Seq<char>>::empty());
            assert forall|id: EndpointId| keys.contains(id) == #[trigger] wanted.dom().contains(
                id,
            ) by {
                if keys.contains(id) {
                    let k = choose|k: int| 0 <= k < keys.len() && keys[k] == id;
                    assert(state@.contains_key(alive@[k].0));
                }
                if wanted.dom().contains(id) {
                    assert(state@.contains_key(id) && state@[id].name is Some);
                    let k = choose|k: int| 0 <= k < alive@.len() && (#[trigger] alive@[k]).0 == id;
                    assert(keys[k] == id);
                }
            }
            assert forall|i: int, j: int|
                0 <= i < j < keys.len() implies (#[trigger] keys[i]).rank() < (
            #[trigger] keys[j]).rank() by {
                assert(alive@[i].0.rank() < alive@[j].0.rank());
            }
            ordmap::lemma_in_order(keys, wanted.dom());
        }
        while i < alive.len()
            invariant
                i <= alive.len(),
                self.wf(),
                self@ == before,
                names.wf(),
                wanted == desired(state@),
                keys == Seq::new(alive@.len(), |k: int| alive@[k].0),
                p == (|id: EndpointId| !before.contains_key(id)),
                added@ == keys.take(i as int).filter(p),
                forall|k: int|
                    0 <= k < alive@.len() ==> {
                        &&& state@.contains_key((#[trigger] alive@[k]).0)
                        &&& state@[alive@[k].0].name == Some(alive@[k].1@)
                    },
                forall|id: EndpointId| #[trigger]
                    name_views(names@).contains_key(id) <==> keys.take(i as int).contains(id),
                forall|id: EndpointId| #[trigger]
                    name_views(names@).contains_key(id) ==> name_views(names@)[id] == wanted[id],
            decreases alive.len() - i,
        {
            let (id, name) = alive[i];
            proof {
                reveal(Seq::filter);
                assert(keys.take(i + 1).drop_last() =~= keys.take(i as int));
                assert(keys.take(i + 1).last() == id);
                assert(keys.take(i + 1) =~= keys.take(i as int).push(id));
                assert(state@.contains_key(alive@[i as int].0));
            }
            if !self.names.contains_key(&id) {
                added.push(id);
            }
            let ghost had = name_views(names@);
            names.insert(id, name.to_owned());
            proof {
                assert(name_views(names@) =~= had.insert(id, name@));
                assert forall|other: EndpointId| #[trigger]
                    name_views(names@).contains_key(other) <==> keys.take(i + 1).contains(other) by {
                    let part = keys.take(i as int);
                    if part.contains(other) {
                        let k = choose|k: int| 0 <= k < part.len() && part[k] == other;
                        assert(keys.take(i + 1)[k] == other);
                    }
                    assert(keys.take(i + 1)[i as int] == id);
                    let longer = keys.take(i + 1);
                    if longer.contains(other) && other != id {
                        let k = choose|k: int| 0 <= k < longer.len() && longer[k] == other;
                        assert(part[k] == other);
                    }
                }
            }
            i += 1;
        }
        assert(keys.take(i as int) =~= keys);
        self.names = names;
        proof {
            assert forall|id: EndpointId| #[trigger] self@.dom().contains(id)
                == wanted.dom().contains(id) by {
                assert(name_views(names@).contains_key(id) <==> keys.contains(id));
            }
            assert(self@ =~= wanted);
        }
        Changes { removed, renamed, added }
    }
}

/// Where one peer's connection is at.
#[derive(Debug)]
pub enum PeerState {
    Connecting,
    Connected { route: Option<Route>, since: Time },
    Backoff { until: Time },
}

impl PeerState {
    /// What is told of a connection, at some time.
    pub open spec fn told(self, now: Time) -> ConnectionStatus {
        match self {
            PeerState::Connecting => ConnectionStatus::Connecting,
            PeerState::Connected { route, since } => ConnectionStatus::Connected {
                route,
                since_secs: now.elapsed(since).whole_secs(),
            },
            PeerState::Backoff { until } => ConnectionStatus::Backoff {
                retry_in_secs: until.elapsed(now).whole_secs(),
            },
        }
    }

    /// What is told of a connection, at some time.
    pub fn status(self, now: Time) -> (status: ConnectionStatus)
        ensures
            status == self.told(now),
    {
        match self {
            PeerState::Connecting => ConnectionStatus::Connecting,
            PeerState::Connected { route, since } => ConnectionStatus::Connected {
                route,
                since_secs: now.since(since).as_secs(),
            },
            PeerState::Backoff { until } => ConnectionStatus::Backoff {
                retry_in_secs: until.since(now).as_secs(),
            },
        }
    }
}

/// What is told of some machines: of each that is watched, its name and its
/// connection.
pub open spec fn told_peers(
    names: Map<EndpointId, Seq<char>>,
    states: Seq<(EndpointId, PeerState)>,
    now: Time,
) -> Seq<(Seq<char>, EndpointId, ConnectionStatus)>
    decreases states.len(),
{
    if states.len() == 0 {
        Seq::empty()
    } else {
        let before = told_peers(names, states.drop_last(), now);
        let last = states.last();
        if names.contains_key(last.0) {
            before.push((names[last.0], last.0, last.1.told(now)))
        } else {
            before
        }
    }
}

/// What is told of some machines, for contracts.
pub open spec fn peer_views(list: Seq<PeerStatus>) -> Seq<(Seq<char>, EndpointId, ConnectionStatus)> {
    list.map_values(|peer: PeerStatus| (peer.name@, peer.endpoint, peer.connection))
}

impl PeerSet {
    /// A snapshot of every machine, for `yank status`, `states` saying where
    /// their connections are at.
    pub fn statuses(&self, states: Vec<(EndpointId, PeerState)>, now: Time) -> (list: Vec<
        PeerStatus,
    >)
        requires
            self.wf(),
        ensures
            peer_views(list@) == told_peers(self@, states@, now),
    {
        let ghost all = states@;
        let mut list: Vec<PeerStatus> = Vec::new();
        assert(peer_views(list@) =~= told_peers(self@, all.take(0), now));
        for state in it: states
            invariant
                self.wf(),
                all == it.seq(),
                peer_views(list@) == told_peers(self@, all.take(it.index()), now),
        {
            let ghost before = peer_views(list@);
            assert(all.take(it.index() + 1).drop_last() =~= all.take(it.index()));
            let (endpoint, at) = state;
            match self.name(&endpoint) {
                Some(name) => {
                    let connection = at.status(now);
                    let peer = PeerStatus { name: name.to_owned(), endpoint, connection };
                    list.push(peer);
                    assert(peer_views(list@) =~= before.push(
                        (self@[endpoint], endpoint, at.told(now)),
                    ));
                },
                None => {},
            }
        }
        assert(all.take(all.len() as int) =~= all);
        list
    }
}

/// Keeping one machine connected, forever: dialing, and waiting in between.
#[derive(Debug)]
pub struct PeerLoop {
    pub backoff: Backoff,
    pub delay: Option<Span>,
}

/// Whether that much is waited of a delay, or thereabouts.
pub open spec fn waits(waited: Option<Span>, delay: Span) -> bool {
    exists|share: u64| #[trigger]
        backoff::fair(share) && waited == Some(backoff::jittered(delay, share))
}

impl PeerLoop {
    /// A machine to dial at once.
    pub fn new() -> (peer: Self)
        ensures
            peer.delay is None,
            peer.backoff == (Backoff {
                min: Span::of_secs(BACKOFF_MIN),
                max: Span::of_secs(BACKOFF_MAX),
                current: Span::of_secs(BACKOFF_MIN),
            }),
    {
        PeerLoop {
            backoff: Backoff::new(Span::from_secs(BACKOFF_MIN), Span::from_secs(BACKOFF_MAX)),
            delay: None,
        }
    }

    /// How long to wait before dialing, unless the peer dials first.
    pub fn wait(&mut self) -> (delay: Option<Span>)
        ensures
            delay == old(self).delay,
            *final(self) == (PeerLoop { delay: None, ..*old(self) }),
    {
        let delay = self.delay;
        self.delay = None;
        delay
    }

    /// No connection came of it.
    pub fn not_reached(&mut self)
        ensures
            waits(final(self).delay, old(self).backoff.current),
            final(self).backoff == (Backoff {
                current: backoff::doubled(old(self).backoff.current, old(self).backoff.max),
                ..old(self).backoff
            }),
    {
        self.delay = Some(self.backoff.next_delay());
    }

    /// A connection has ended after some time.
    pub fn disconnected(&mut self, held: Span)
        ensures
            if held.nanos >= Span::of_secs(STABLE_UPTIME).nanos {
                *final(self) == (PeerLoop {
                    backoff: Backoff { current: old(self).backoff.min, ..old(self).backoff },
                    ..*old(self)
                })
            } else {
                &&& waits(final(self).delay, old(self).backoff.current)
                &&& final(self).backoff == (Backoff {
                    current: backoff::doubled(old(self).backoff.current, old(self).backoff.max),
                    ..old(self).backoff
                })
            },
    {
        let stable = Span::from_secs(STABLE_UPTIME);
        if held.nanos >= stable.nanos {
            self.backoff.reset();
        } else {
            self.delay = Some(self.backoff.next_delay());
        }
    }
}

/// Whether a machine's own dial is the one to keep: it is when its id is the
/// lower. The other machine takes whichever connection lands first. Both taking
/// the first would have them adopt mirrored connections the other side just
/// abandoned, and redial in a loop.
pub fn prefers_own_dial(local: &EndpointId, peer: &EndpointId) -> (r: bool)
    ensures
        r == (local.rank() < peer.rank()),
{
    match local.place(peer) {
        Place::Before => true,
        Place::Same => false,
        Place::After => false,
    }
}

/// What happens while a connection is served.
#[derive(Clone, Copy, Debug, PartialEq, Eq, Structural)]
pub enum ServeEvent {
    /// The connection closed, or a stream of it could not be taken.
    Lost,
    /// The peer dialed us, although we are connected.
    Inbound,
    /// The peer opened a one-shot stream.
    Uni,
    /// The peer opened a stream both ways.
    Bi,
    /// A one-shot stream is done with.
    UniDone,
    /// A stream both ways is done with.
    BiDone,
}

/// What is done about it.
#[derive(Clone, Copy, Debug, PartialEq, Eq, Structural)]
pub enum ServeAction {
    /// Nothing.
    Nothing,
    /// Stop serving.
    Stop,
    /// Close the new connection, as a duplicate.
    CloseNew,
    /// Close the old connection, as a duplicate, and serve the new one: with a
    /// fetcher of its own, since what the old one has heard only means anything
    /// on its connection, and with the whole state sent again.
    Switch,
    /// Read the stream.
    Read,
    /// Drop the stream: too many are open.
    Drop,
}

/// One connection being served.
#[derive(Clone, Copy, Debug, PartialEq, Eq, Structural)]
pub struct Serving {
    pub local: EndpointId,
    pub peer: EndpointId,
    /// Whether we dialed it.
    pub outbound: bool,
    /// How many one-shot streams are being read.
    pub unis: usize,
    /// How many streams both ways are being served.
    pub fetches: usize,
}

impl Serving {
    /// Whether the streams are within their bounds.
    pub open spec fn valid(self) -> bool {
        self.unis <= MAX_UNI_STREAMS && self.fetches <= MAX_FETCH_STREAMS
    }

    /// The machine that dialed the connection.
    pub open spec fn dialer(self) -> EndpointId {
        if self.outbound {
            self.local
        } else {
            self.peer
        }
    }

    /// What follows an event.
    pub open spec fn next(self, event: ServeEvent) -> (Serving, ServeAction) {
        match event {
            ServeEvent::Lost => (self, ServeAction::Stop),
            ServeEvent::Inbound => if self.outbound && self.local.rank() < self.peer.rank() {
                (self, ServeAction::CloseNew)
            } else {
                (Serving { outbound: false, ..self }, ServeAction::Switch)
            },
            ServeEvent::Uni => if self.unis < MAX_UNI_STREAMS {
                (Serving { unis: (self.unis + 1) as usize, ..self }, ServeAction::Read)
            } else {
                (self, ServeAction::Drop)
            },
            ServeEvent::Bi => if self.fetches < MAX_FETCH_STREAMS {
                (Serving { fetches: (self.fetches + 1) as usize, ..self }, ServeAction::Read)
            } else {
                (self, ServeAction::Drop)
            },
            ServeEvent::UniDone => if self.unis > 0 {
                (Serving { unis: (self.unis - 1) as usize, ..self }, ServeAction::Nothing)
            } else {
                (self, ServeAction::Nothing)
            },
            ServeEvent::BiDone => if self.fetches > 0 {
                (Serving { fetches: (self.fetches - 1) as usize, ..self }, ServeAction::Nothing)
            } else {
                (self, ServeAction::Nothing)
            },
        }
    }

    /// Starts serving a connection.
    pub fn begin(local: EndpointId, peer: EndpointId, outbound: bool) -> (serving: Self)
        ensures
            serving == (Serving { local, peer, outbound, unis: 0, fetches: 0 }),
            serving.valid(),
    {
        Serving { local, peer, outbound, unis: 0, fetches: 0 }
    }

    /// Takes what happened, and says what is done about it.
    pub fn on(&mut self, event: ServeEvent) -> (action: ServeAction)
        ensures
            (*final(self), action) == old(self).next(event),
            old(self).valid() ==> final(self).valid(),
    {
        match event {
            ServeEvent::Lost => ServeAction::Stop,
            ServeEvent::Inbound => if self.outbound && prefers_own_dial(&self.local, &self.peer) {
                ServeAction::CloseNew
            } else {
                self.outbound = false;
                ServeAction::Switch
            },
            ServeEvent::Uni => if self.unis < MAX_UNI_STREAMS {
                self.unis = self.unis + 1;
                ServeAction::Read
            } else {
                ServeAction::Drop
            },
            ServeEvent::Bi => if self.fetches < MAX_FETCH_STREAMS {
                self.fetches = self.fetches + 1;
                ServeAction::Read
            } else {
                ServeAction::Drop
            },
            ServeEvent::UniDone => {
                if self.unis > 0 {
                    self.unis = self.unis - 1;
                }
                ServeAction::Nothing
            },
            ServeEvent::BiDone => {
                if self.fetches > 0 {
                    self.fetches = self.fetches - 1;
                }
                ServeAction::Nothing
            },
        }
    }
}

/// Two machines that dialed each other settle on one connection: each serves
/// the one it dialed and is handed the one the other dialed, and both end up
/// with the one the lower id dialed.
pub proof fn a_pair_settles_on_one_connection(a: Serving, b: Serving)
    requires
        a.local == b.peer,
        a.peer == b.local,
        a.local != a.peer,
        a.outbound,
        b.outbound,
    ensures
        ({
            let ours = a.next(ServeEvent::Inbound).0.dialer();
            let theirs = b.next(ServeEvent::Inbound).0.dialer();
            ours == theirs && ours == (if a.local.rank() < a.peer.rank() {
                a.local
            } else {
                a.peer
            })
        }),
{
    if a.local.rank() == a.peer.rank() {
        EndpointId::rank_is_unique(a.local, a.peer);
    }
}

/// What a fetcher has heard of a peer.
#[derive(Clone, Copy, Debug, PartialEq, Eq, Structural)]
pub struct Fetcher {
    pub last_seq: u64,
}

impl Fetcher {
    /// Nothing heard.
    pub fn new() -> (fetcher: Self)
        ensures
            fetcher == (Fetcher { last_seq: 0 }),
    {
        Fetcher { last_seq: 0 }
    }

    /// Hears an announcement. Returns whether it is to be acted on: streams
    /// have no order between them, so an announcement that overtook a newer one
    /// is discarded.
    pub fn hear(&mut self, seq: u64) -> (news: bool)
        ensures
            news == (seq > old(self).last_seq),
            final(self).last_seq == (if news {
                seq
            } else {
                old(self).last_seq
            }),
    {
        if seq <= self.last_seq {
            return false;
        }
        self.last_seq = seq;
        true
    }
}

/// What became of a pull.
#[derive(Clone, Copy, Debug, PartialEq, Eq, Structural)]
pub enum Pulled {
    /// It failed, or took too long. It is not retried here: the peer's next
    /// announcement, or the periodic one, comes back to it.
    Failed,
    /// It brought this many entries, which were taken.
    Taken(usize),
    /// It brought entries that could not be taken.
    Refused,
}

/// Whether to pull again after a pull, when a peer announced this much and we
/// hold that much. Nothing coming back although the peer said it had more means
/// that it dropped those entries: asking again would loop.
pub fn pull_again(pulled: Pulled, theirs: &Watermark, ours: &Watermark) -> (r: bool)
    requires
        theirs.wf(),
        ours.wf(),
    ensures
        r == (pulled matches Pulled::Taken(n) && n > 0 && log::ahead(theirs@, ours@)),
{
    match pulled {
        Pulled::Taken(n) => n > 0 && theirs.outruns(ours),
        _ => false,
    }
}

/// The answer to a pull, frame by frame.
pub struct Answer {
    entries: Vec<WireEntry>,
}

impl View for Answer {
    type V = Seq<WireEntry>;

    closed spec fn view(&self) -> Seq<WireEntry> {
        self.entries@
    }
}

/// What a frame means for the answer it is part of.
#[derive(Clone, Copy, Debug, PartialEq, Eq, Structural)]
pub enum FrameOutcome {
    /// There is more to come.
    More,
    /// The answer is complete.
    Complete,
    /// The peer sent more entries than a log can hold.
    TooMany,
}

impl Answer {
    /// Nothing received.
    pub fn new() -> (answer: Self)
        ensures
            answer@ == Seq::<WireEntry>::empty(),
    {
        Answer { entries: Vec::new() }
    }

    /// Takes the next frame.
    pub fn take(&mut self, frame: FetchFrame) -> (outcome: FrameOutcome)
        ensures
            match frame {
                FetchFrame::End => outcome == FrameOutcome::Complete && final(self)@ == old(self)@,
                FetchFrame::Entry(entry) => if old(self)@.len() < MAX_FETCH_ENTRIES {
                    outcome == FrameOutcome::More && final(self)@ == old(self)@.push(entry)
                } else {
                    outcome == FrameOutcome::TooMany && final(self)@ == old(self)@
                },
            },
    {
        match frame {
            FetchFrame::End => FrameOutcome::Complete,
            FetchFrame::Entry(entry) => {
                if self.entries.len() >= MAX_FETCH_ENTRIES {
                    return FrameOutcome::TooMany;
                }
                self.entries.push(entry);
                FrameOutcome::More
            },
        }
    }

    /// The entries of a complete answer.
    pub fn entries(self) -> (entries: Vec<WireEntry>)
        ensures
            entries@ == self@,
    {
        self.entries
    }
}

/// The frames some entries are sent as, and then the end.
pub fn frames(entries: Vec<WireEntry>) -> (list: Vec<FetchFrame>)
    ensures
        list@ == entries@.map_values(|entry: WireEntry| FetchFrame::Entry(entry)).push(
            FetchFrame::End,
        ),
{
    let ghost all = entries@.map_values(|entry: WireEntry| FetchFrame::Entry(entry));
    let mut list: Vec<FetchFrame> = Vec::new();
    for entry in it: entries
        invariant
            all == it.seq().map_values(|entry: WireEntry| FetchFrame::Entry(entry)),
            list@ == all.take(it.index()),
    {
        list.push(FetchFrame::Entry(entry));
        assert(list@ =~= all.take(it.index() + 1));
    }
    assert(list@ =~= all);
    list.push(FetchFrame::End);
    list
}

/// The machines that are kept connected are those of the mesh that were not
/// removed, each under its name.
pub proof fn the_machines_of_the_mesh_are_watched(
    peers: Map<EndpointId, PeerView>,
    id: EndpointId,
)
    ensures
        desired(peers).contains_key(id) <==> peers.contains_key(id) && peers[id].name is Some,
        desired(peers).contains_key(id) ==> Some(desired(peers)[id]) == peers[id].name,
{
}

/// Of every machine that is watched it is told where its connection is at, in
/// order, and of no other.
pub proof fn every_watched_machine_is_told_of(
    names: Map<EndpointId, Seq<char>>,
    states: Seq<(EndpointId, PeerState)>,
    now: Time,
)
    ensures
        (forall|i: int| 0 <= i < states.len() ==> names.contains_key((#[trigger] states[i]).0))
            ==> told_peers(names, states, now) == Seq::new(
            states.len(),
            |i: int| (names[states[i].0], states[i].0, states[i].1.told(now)),
        ),
        forall|k: int|
            0 <= k < told_peers(names, states, now).len() ==> names.contains_key(
                (#[trigger] told_peers(names, states, now)[k]).1,
            ),
    decreases states.len(),
{
    let all = told_peers(names, states, now);
    if states.len() > 0 {
        let rest = states.drop_last();
        every_watched_machine_is_told_of(names, rest, now);
        let before = told_peers(names, rest, now);
        assert forall|k: int| 0 <= k < all.len() implies names.contains_key(
            (#[trigger] all[k]).1,
        ) by {
            if k < before.len() {
                assert(all[k] == before[k]);
            }
        }
        if forall|i: int| 0 <= i < states.len() ==> names.contains_key((#[trigger] states[i]).0) {
            assert forall|i: int| 0 <= i < rest.len() implies names.contains_key(
                (#[trigger] rest[i]).0,
            ) by {
                assert(rest[i] == states[i]);
            }
            assert(states[states.len() - 1] == states.last());
            assert(all =~= Seq::new(
                states.len(),
                |i: int| (names[states[i].0], states[i].0, states[i].1.told(now)),
            ));
        }
    } else {
        assert(all =~= Seq::new(
            states.len(),
            |i: int| (names[states[i].0], states[i].0, states[i].1.told(now)),
        ));
    }
}

/// A connection is told of in whole seconds: for how long it has been up, or how
/// long it is until it is tried again.
pub proof fn a_connection_is_told_of_in_seconds(
    route: Option<Route>,
    since: Time,
    until: Time,
    now: Time,
)
    requires
        since.nanos <= now.nanos <= until.nanos,
        until.nanos / 1_000_000_000 <= u64::MAX,
    ensures
        (PeerState::Connected { route, since }).told(now) == (ConnectionStatus::Connected {
            route,
            since_secs: ((now.nanos - since.nanos) / 1_000_000_000) as u64,
        }),
        (PeerState::Backoff { until }).told(now) == (ConnectionStatus::Backoff {
            retry_in_secs: ((until.nanos - now.nanos) / 1_000_000_000) as u64,
        }),
        PeerState::Connecting.told(now) == ConnectionStatus::Connecting,
{
}

/// A stream that a peer opens is read while fewer than the bound are, and is
/// dropped otherwise; one that is done with makes room for another; and nothing
/// but losing the connection ends it.
pub proof fn streams_are_read_within_their_bounds(serving: Serving, event: ServeEvent)
    requires
        serving.valid(),
    ensures
        serving.unis < MAX_UNI_STREAMS ==> serving.next(ServeEvent::Uni).1 is Read && serving.next(
            ServeEvent::Uni,
        ).0.next(ServeEvent::UniDone).0 == serving,
        serving.fetches < MAX_FETCH_STREAMS ==> serving.next(ServeEvent::Bi).1 is Read
            && serving.next(ServeEvent::Bi).0.next(ServeEvent::BiDone).0 == serving,
        serving.unis == MAX_UNI_STREAMS ==> serving.next(ServeEvent::Uni) == (
            serving,
            ServeAction::Drop,
        ),
        serving.fetches == MAX_FETCH_STREAMS ==> serving.next(ServeEvent::Bi) == (
            serving,
            ServeAction::Drop,
        ),
        serving.next(event).1 is Stop <==> event is Lost,
        serving.next(event).0.valid(),
        serving.next(event).0.local == serving.local,
        serving.next(event).0.peer == serving.peer,
        !(event is Inbound) ==> serving.next(event).0.outbound == serving.outbound,
{
}

/// A machine that is dialed although it is connected keeps the connection it
/// dialed itself when its id is the lower, and goes over to the new one
/// otherwise.
pub proof fn a_second_connection_is_settled(serving: Serving)
    ensures
        serving.outbound && serving.local.rank() < serving.peer.rank() ==> serving.next(
            ServeEvent::Inbound,
        ) == (serving, ServeAction::CloseNew),
        !serving.outbound || serving.local.rank() >= serving.peer.rank() ==> serving.next(
            ServeEvent::Inbound,
        ).1 is Switch && !serving.next(ServeEvent::Inbound).0.outbound,
{
}


} // verus!
