//! The mesh state: which machines are paired, and their names.
//!
//! Every machine keeps its own copy and the copies converge on their own. A
//! [`Peer`] record is a *versioned register*: a local change bumps its
//! version, the higher version wins, and ties resolve the same way everywhere,
//! so no clock is needed. Removals are kept as tombstones, because a machine
//! that missed a removal would otherwise re-introduce the peer on the next
//! exchange.

use crate::config::name;
use crate::config::name::{validate_name, NameError};
use crate::encoding;
use crate::log::EndpointId;
use crate::ordmap;
use crate::ordmap::{OrdMap, Ranked};
use crate::text;
use vstd::prelude::*;

verus! {

/// Cap on the machines tracked, tombstones included. A personal mesh is a
/// handful of machines; the cap keeps a peer from growing the state file, and
/// the membership we must be able to send in one message, without bound.
pub const MAX_MESH_PEERS: usize = 64;

/// Cap on a record's version. Versions advance by one per local change, so a
/// record past this is corrupt or hostile: without the cap, a record parked at
/// the end could never be superseded, freezing a machine out of the mesh for
/// good.
pub const MAX_RECORD_VERSION: u64 = 0x1_0000_0000;

/// This machine's copy of the mesh.
pub struct MeshState {
    /// Every machine ever paired, keyed by endpoint id, tombstones included.
    pub peers: OrdMap<EndpointId, Peer>,
}

/// One machine's record.
#[derive(Debug)]
pub struct Peer {
    /// Bumped on every local change, so the change outranks the record every
    /// other machine holds.
    pub version: u64,
    pub status: PeerStatus,
}

/// Whether a machine is part of the mesh. `Removed` is a tombstone.
#[derive(Debug)]
pub enum PeerStatus {
    Alive { name: String },
    Removed,
}

/// What one machine gossips: its whole view of the mesh, sent as an idempotent
/// snapshot on connect, on every change, and periodically.
pub struct Membership {
    pub peers: OrdMap<EndpointId, Peer>,
}

/// What a record says: its version, and the machine's name while it is in the
/// mesh.
#[verifier::ext_equal]
pub struct PeerView {
    pub version: u64,
    pub name: Option<Seq<char>>,
}

impl View for Peer {
    type V = PeerView;

    open spec fn view(&self) -> PeerView {
        PeerView {
            version: self.version,
            name: match self.status {
                PeerStatus::Alive { name } => Some(name@),
                PeerStatus::Removed => None,
            },
        }
    }
}

/// What some records say.
pub open spec fn records(peers: Map<EndpointId, Peer>) -> Map<EndpointId, PeerView> {
    peers.map_values(|peer: Peer| peer@)
}

impl View for MeshState {
    type V = Map<EndpointId, PeerView>;

    open spec fn view(&self) -> Map<EndpointId, PeerView> {
        records(self.peers@)
    }
}

impl View for Membership {
    type V = Map<EndpointId, PeerView>;

    open spec fn view(&self) -> Map<EndpointId, PeerView> {
        records(self.peers@)
    }
}

impl PeerView {
    /// Whether this record replaces `other` on merge: higher version first,
    /// then removal over presence (so a tombstone cannot be undone by a
    /// concurrent rename), then the smaller name (so two machines renaming at
    /// the same version still settle on one).
    pub open spec fn outranks(self, other: PeerView) -> bool {
        ||| self.version > other.version
        ||| self.version == other.version && match (self.name, other.name) {
            (None, Some(_)) => true,
            (Some(ours), Some(theirs)) => text::before(ours, theirs),
            _ => false,
        }
    }

    /// Whether a record of a peer may be adopted at all: its version is
    /// strictly below the ceiling, where a local change can still supersede it,
    /// and its name is one that may be shown.
    pub open spec fn usable(self) -> bool {
        &&& self.version < MAX_RECORD_VERSION
        &&& self.name matches Some(name) ==> name::name_refusal(name) is None
    }
}

/// Some records once one of a peer has been offered.
pub open spec fn merge_one(
    peers: Map<EndpointId, PeerView>,
    id: EndpointId,
    record: PeerView,
    local: EndpointId,
) -> Map<EndpointId, PeerView> {
    if id == local || !record.usable() {
        peers
    } else if peers.contains_key(id) {
        if record.outranks(peers[id]) {
            peers.insert(id, record)
        } else {
            peers
        }
    } else if peers.len() < MAX_MESH_PEERS {
        peers.insert(id, record)
    } else {
        peers
    }
}

/// Some records once those of a peer have been offered, one after the other.
pub open spec fn merge_all(
    peers: Map<EndpointId, PeerView>,
    remote: Map<EndpointId, PeerView>,
    ids: Seq<EndpointId>,
    local: EndpointId,
) -> Map<EndpointId, PeerView>
    decreases ids.len(),
{
    if ids.len() == 0 {
        peers
    } else {
        merge_one(
            merge_all(peers, remote, ids.drop_last(), local),
            ids.last(),
            remote[ids.last()],
            local,
        )
    }
}

/// Some records once the view of a peer has been merged into them.
pub open spec fn merged(
    peers: Map<EndpointId, PeerView>,
    remote: Map<EndpointId, PeerView>,
    local: EndpointId,
) -> Map<EndpointId, PeerView> {
    merge_all(peers, remote, ordmap::in_order(remote.dom()), local)
}

/// Why a change to the mesh is refused.
#[derive(Clone, Copy, Debug, PartialEq, Eq, Structural)]
pub enum MeshError {
    /// The name is refused.
    Name(NameError),
    /// The mesh already has [`MAX_MESH_PEERS`] machines.
    Full,
    /// The record of the machine is corrupt: its version is past the ceiling.
    Corrupt { id: EndpointId, version: u64 },
    /// No such machine is in the mesh.
    Unknown,
    /// What was typed matches this many machines.
    Ambiguous(usize),
}

/// What a record past the ceiling is reported as.
pub open spec fn corrupt(peers: Map<EndpointId, PeerView>, id: EndpointId) -> MeshError {
    MeshError::Corrupt { id, version: version_of(peers, id) }
}

/// What is told of a refused change.
pub open spec fn error_text(error: MeshError) -> Seq<char> {
    match error {
        MeshError::Name(NameError::Empty) => "a machine name cannot be empty"@,
        MeshError::Name(NameError::TooLong) => "a machine name has at most 64 characters"@,
        MeshError::Name(NameError::Control) => "a machine name cannot hold control characters"@,
        MeshError::Full => "the mesh already has 64 machines"@,
        MeshError::Corrupt { id, version } => "the record of `"@ + encoding::hex(id.key.bytes())
            + "` is corrupt (version "@ + text::decimal_digits(version as nat)
            + "); remove it from mesh.json on every machine"@,
        MeshError::Unknown => "unknown machine"@,
        MeshError::Ambiguous(n) => "matches "@ + text::decimal_digits(n as nat)
            + " machines; use an endpoint id instead"@,
    }
}

impl MeshError {
    /// What is told of a refused change, to the person or the machine that
    /// asked for it.
    pub fn text(&self) -> (told: String)
        ensures
            told@ == error_text(*self),
    {
        match *self {
            MeshError::Name(NameError::Empty) => "a machine name cannot be empty".to_owned(),
            MeshError::Name(NameError::TooLong) =>
                "a machine name has at most 64 characters".to_owned(),
            MeshError::Name(NameError::Control) =>
                "a machine name cannot hold control characters".to_owned(),
            MeshError::Full => "the mesh already has 64 machines".to_owned(),
            MeshError::Corrupt { id, version } => {
                let mut told = "the record of `".to_owned();
                let machine = id.text();
                told.append(machine.as_str());
                told.append("` is corrupt (version ");
                let count = text::decimal(version as u128);
                told.append(count.as_str());
                told.append("); remove it from mesh.json on every machine");
                told
            },
            MeshError::Unknown => "unknown machine".to_owned(),
            MeshError::Ambiguous(n) => {
                let mut told = "matches ".to_owned();
                let count = text::decimal(n as u128);
                told.append(count.as_str());
                told.append(" machines; use an endpoint id instead");
                told
            },
        }
    }
}

/// Why a machine cannot be added under a name, if it cannot.
pub open spec fn new_peer_refusal(
    peers: Map<EndpointId, PeerView>,
    name: Seq<char>,
    id: EndpointId,
) -> Option<MeshError> {
    match name::name_refusal(name) {
        Some(error) => Some(MeshError::Name(error)),
        None => if peers.len() >= MAX_MESH_PEERS && !peers.contains_key(id) {
            Some(MeshError::Full)
        } else {
            None
        },
    }
}

/// The version some records hold of a machine; zero when they hold none.
pub open spec fn version_of(peers: Map<EndpointId, PeerView>, id: EndpointId) -> u64 {
    if peers.contains_key(id) {
        peers[id].version
    } else {
        0
    }
}

/// Whether a machine is in the mesh.
pub open spec fn alive(peers: Map<EndpointId, PeerView>, id: EndpointId) -> bool {
    peers.contains_key(id) && peers[id].name is Some
}

impl Clone for Peer {
    fn clone(&self) -> (other: Self)
        ensures
            other@ == self@,
    {
        Peer {
            version: self.version,
            status: match &self.status {
                PeerStatus::Alive { name } => PeerStatus::Alive { name: name.clone() },
                PeerStatus::Removed => PeerStatus::Removed,
            },
        }
    }
}

impl Peer {
    /// The machine's name while it is in the mesh; `None` for a tombstone.
    pub fn name(&self) -> (name: Option<&str>)
        ensures
            match name {
                Some(name) => self@.name == Some(name@),
                None => self@.name is None,
            },
    {
        match &self.status {
            PeerStatus::Alive { name } => Some(name.as_str()),
            PeerStatus::Removed => None,
        }
    }

    /// Whether two records say the same.
    pub fn same(&self, other: &Self) -> (r: bool)
        ensures
            r == (self@ == other@),
    {
        if self.version != other.version {
            return false;
        }
        match (self.name(), other.name()) {
            (Some(ours), Some(theirs)) => text::same(ours, theirs),
            (None, None) => true,
            _ => false,
        }
    }

    /// Whether this record replaces `other` on merge.
    pub fn outranks(&self, other: &Self) -> (r: bool)
        ensures
            r == self@.outranks(other@),
    {
        if self.version != other.version {
            return self.version > other.version;
        }
        match (self.name(), other.name()) {
            (None, Some(_)) => true,
            (Some(ours), Some(theirs)) => {
                let a = text::chars_of(ours);
                let b = text::chars_of(theirs);
                text::is_before(a.as_slice(), b.as_slice())
            },
            _ => false,
        }
    }

    /// Whether a record of a peer may be adopted at all.
    fn is_usable(&self) -> (r: bool)
        ensures
            r == self@.usable(),
    {
        if self.version >= MAX_RECORD_VERSION {
            return false;
        }
        match self.name() {
            Some(name) => validate_name(name).is_ok(),
            None => true,
        }
    }
}

impl Default for MeshState {
    fn default() -> (state: Self)
        ensures
            state.wf(),
            state@ == Map::<EndpointId, PeerView>::empty(),
    {
        let state = MeshState { peers: OrdMap::new() };
        assert(state@ =~= Map::<EndpointId, PeerView>::empty());
        state
    }
}

impl Membership {
    /// Whether the records are in order, each machine once.
    pub open spec fn wf(&self) -> bool {
        self.peers.wf()
    }

    /// The same view again.
    pub fn clone(&self) -> (other: Self)
        requires
            self.wf(),
        ensures
            other.wf(),
            other@ == self@,
    {
        Membership { peers: clone_peers(&self.peers) }
    }
}

/// The same records again.
fn clone_peers(peers: &OrdMap<EndpointId, Peer>) -> (copy: OrdMap<EndpointId, Peer>)
    requires
        peers.wf(),
    ensures
        copy.wf(),
        records(copy@) == records(peers@),
{
    let mut copy: OrdMap<EndpointId, Peer> = OrdMap::new();
    let n: usize = peers.len();
    let ghost pairs = peers.pairs();
    let mut i: usize = 0;
    proof {
        peers.lemma_pairs();
        assert(pairs.take(0) =~= Seq::empty());
        assert(ordmap::map_of(pairs.take(0)) =~= Map::<EndpointId, Peer>::empty());
        assert(records(copy@) =~= records(ordmap::map_of(pairs.take(0))));
    }
    while i < n
        invariant
            i <= n,
            n == pairs.len(),
            peers.wf(),
            pairs == peers.pairs(),
            copy.wf(),
            records(copy@) == records(ordmap::map_of(pairs.take(i as int))),
        decreases n - i,
    {
        proof {
            peers.lemma_pairs();
            assert(pairs.take(i + 1) =~= pairs.take(i as int).push(pairs[i as int]));
            ordmap::lemma_map_of_push(pairs.take(i as int), pairs[i as int]);
        }
        let ghost before = records(copy@);
        let peer = peers.value_at(i).clone();
        copy.insert(peers.key_at(i), peer);
        assert(records(copy@) =~= before.insert(pairs[i as int].0, pairs[i as int].1@));
        assert(records(copy@) =~= records(ordmap::map_of(pairs.take(i + 1))));
        i += 1;
    }
    proof {
        peers.lemma_pairs();
        assert(pairs.take(i as int) =~= pairs);
    }
    copy
}

impl MeshState {
    /// Whether the records are in order, each machine once.
    pub open spec fn wf(&self) -> bool {
        self.peers.wf()
    }

    /// How many records there are says how many machines are known.
    proof fn lemma_len(&self)
        requires
            self.wf(),
        ensures
            self@.dom() == self.peers@.dom(),
            self@.len() == self.peers.pairs().len(),
            self@.dom().finite(),
    {
        self.peers.lemma_pairs();
        assert(self@.dom() =~= self.peers@.dom());
    }

    /// The same state again.
    pub fn clone(&self) -> (other: Self)
        requires
            self.wf(),
        ensures
            other.wf(),
            other@ == self@,
    {
        MeshState { peers: clone_peers(&self.peers) }
    }

    /// Whether two states say the same of every machine.
    pub fn same(&self, other: &MeshState) -> (r: bool)
        requires
            self.wf(),
            other.wf(),
        ensures
            r == (self@ == other@),
    {
        proof {
            self.lemma_len();
            other.lemma_len();
            self.peers.lemma_pairs();
            other.peers.lemma_pairs();
        }
        let n: usize = self.peers.len();
        if n != other.peers.len() {
            return false;
        }
        let ghost pairs = self.peers.pairs();
        let mut i: usize = 0;
        while i < n
            invariant
                i <= n,
                n == pairs.len(),
                pairs == self.peers.pairs(),
                self.wf(),
                other.wf(),
                forall|j: int|
                    0 <= j < i ==> other@.contains_key((#[trigger] pairs[j]).0)
                        && other@[pairs[j].0] == pairs[j].1@,
            decreases n - i,
        {
            let id = self.peers.key_at(i);
            let record = self.peers.value_at(i);
            proof {
                self.peers.lemma_pairs();
                assert(self.peers@.contains_key(pairs[i as int].0));
                assert(self@[id] == record@);
            }
            match other.peers.get(&id) {
                Some(theirs) => {
                    assert(other@[id] == theirs@);
                    if !record.same(theirs) {
                        return false;
                    }
                },
                None => {
                    assert(!other@.contains_key(id));
                    return false;
                },
            }
            i += 1;
        }
        proof {
            self.lemma_len();
            other.lemma_len();
            self.peers.lemma_pairs();
            assert forall|id: EndpointId| #[trigger] self@.dom().contains(id) implies other@.dom().contains(
                id,
            ) && other@[id] == self@[id] by {
                assert(self.peers@.contains_key(id));
                let j = choose|j: int|
                    0 <= j < pairs.len() && (#[trigger] pairs[j]) == (id, self.peers@[id]);
                assert(other@.contains_key(pairs[j].0));
            }
            vstd::set_lib::lemma_subset_equality(self@.dom(), other@.dom());
            assert(self@ =~= other@);
        }
        true
    }

    /// The view to gossip.
    pub fn membership(&self) -> (membership: Membership)
        requires
            self.wf(),
        ensures
            membership.wf(),
            membership@ == self@,
    {
        Membership { peers: clone_peers(&self.peers) }
    }

    /// The machines currently in the mesh, with their names, in the order of
    /// their ids.
    pub fn alive_peers(&self) -> (list: Vec<(EndpointId, &str)>)
        requires
            self.wf(),
        ensures
            forall|i: int|
                0 <= i < list@.len() ==> {
                    &&& self@.contains_key((#[trigger] list@[i]).0)
                    &&& self@[list@[i].0].name == Some(list@[i].1@)
                },
            forall|i: int, j: int|
                0 <= i < j < list@.len() ==> (#[trigger] list@[i]).0.rank() < (
                #[trigger] list@[j]).0.rank(),
            forall|id: EndpointId| #[trigger]
                self@.contains_key(id) && self@[id].name is Some ==> exists|i: int|
                    0 <= i < list@.len() && (#[trigger] list@[i]).0 == id,
    {
        let n: usize = self.peers.len();
        let ghost pairs = self.peers.pairs();
        let mut list: Vec<(EndpointId, &str)> = Vec::new();
        let mut i: usize = 0;
        proof {
            self.peers.lemma_pairs();
        }
        while i < n
            invariant
                i <= n,
                n == pairs.len(),
                self.wf(),
                pairs == self.peers.pairs(),
                forall|j: int|
                    0 <= j < list@.len() ==> {
                        &&& self@.contains_key((#[trigger] list@[j]).0)
                        &&& self@[list@[j].0].name == Some(list@[j].1@)
                    },
                forall|j: int, k: int|
                    0 <= j < list@.len() && i <= k < n ==> (#[trigger] list@[j]).0.rank() < (
                    #[trigger] pairs[k]).0.rank(),
                forall|j: int, k: int|
                    0 <= j < k < list@.len() ==> (#[trigger] list@[j]).0.rank() < (
                    #[trigger] list@[k]).0.rank(),
                forall|k: int|
                    0 <= k < i && (#[trigger] pairs[k]).1@.name is Some ==> exists|j: int|
                        0 <= j < list@.len() && (#[trigger] list@[j]).0 == pairs[k].0,
            decreases n - i,
        {
            let ghost before = list@;
            proof {
                self.peers.lemma_pairs();
                assert(self.peers@.contains_key(pairs[i as int].0));
            }
            match self.peers.value_at(i).name() {
                Some(name) => {
                    list.push((self.peers.key_at(i), name));
                    assert(list@[before.len() as int].0 == pairs[i as int].0);
                },
                None => {},
            }
            assert forall|k: int| 0 <= k < i + 1 && (#[trigger] pairs[k]).1@.name is Some implies exists|
                j: int,
            |
                0 <= j < list@.len() && (#[trigger] list@[j]).0 == pairs[k].0 by {
                if k < i {
                    let j = choose|j: int|
                        0 <= j < before.len() && (#[trigger] before[j]).0 == pairs[k].0;
                    assert(list@[j].0 == pairs[k].0);
                }
            }
            i += 1;
        }
        assert forall|id: EndpointId| #[trigger]
            self@.contains_key(id) && self@[id].name is Some implies exists|j: int|
            0 <= j < list@.len() && (#[trigger] list@[j]).0 == id by {
            self.peers.lemma_pairs();
            assert(self.peers@.contains_key(id));
            let k = choose|k: int|
                0 <= k < pairs.len() && (#[trigger] pairs[k]) == (id, self.peers@[id]);
            assert(pairs[k].1@.name is Some);
        }
        list
    }

    /// The name of a machine still in the mesh.
    pub fn peer_name(&self, id: &EndpointId) -> (name: Option<&str>)
        requires
            self.wf(),
        ensures
            match name {
                Some(name) => self@.contains_key(*id) && self@[*id].name == Some(name@),
                None => !alive(self@, *id),
            },
    {
        match self.peers.get(id) {
            Some(peer) => peer.name(),
            None => None,
        }
    }

    /// The version a local change to `id` must carry to outrank the stored
    /// record. Refuses to pass the ceiling: saturating there would make the
    /// record unchangeable, so a corrupt one is reported instead.
    fn next_version(&self, id: &EndpointId) -> (version: Result<u64, MeshError>)
        requires
            self.wf(),
        ensures
            match version {
                Ok(version) => {
                    &&& version_of(self@, *id) < MAX_RECORD_VERSION
                    &&& version == version_of(self@, *id) + 1
                },
                Err(error) => {
                    &&& version_of(self@, *id) >= MAX_RECORD_VERSION
                    &&& error == corrupt(self@, *id)
                },
            },
    {
        let version: u64 = match self.peers.get(id) {
            Some(peer) => peer.version,
            None => 0,
        };
        if version < MAX_RECORD_VERSION {
            Ok(version + 1)
        } else {
            Err(MeshError::Corrupt { id: *id, version })
        }
    }

    /// Whether a machine not yet in the mesh could be added under `name`.
    /// Checked before pairing, so a refusal reaches the other side while it is
    /// still listening.
    pub fn validate_new_peer(&self, name: &str, id: &EndpointId) -> (result: Result<(), MeshError>)
        requires
            self.wf(),
        ensures
            match result {
                Ok(_) => new_peer_refusal(self@, name@, *id) is None,
                Err(error) => new_peer_refusal(self@, name@, *id) == Some(error),
            },
    {
        match validate_name(name) {
            Ok(_) => {},
            Err(error) => {
                return Err(MeshError::Name(error));
            },
        }
        proof {
            self.lemma_len();
        }
        if self.peers.len() < MAX_MESH_PEERS || self.peers.contains_key(id) {
            Ok(())
        } else {
            Err(MeshError::Full)
        }
    }

    /// Registers a machine under `name`.
    pub fn add_peer(&mut self, id: EndpointId, name: String) -> (result: Result<(), MeshError>)
        requires
            old(self).wf(),
        ensures
            final(self).wf(),
            match result {
                Ok(_) => {
                    &&& new_peer_refusal(old(self)@, name@, id) is None
                    &&& version_of(old(self)@, id) < MAX_RECORD_VERSION
                    &&& final(self)@ == old(self)@.insert(
                        id,
                        PeerView {
                            version: (version_of(old(self)@, id) + 1) as u64,
                            name: Some(name@),
                        },
                    )
                },
                Err(error) => {
                    &&& final(self)@ == old(self)@
                    &&& match new_peer_refusal(old(self)@, name@, id) {
                        Some(refusal) => error == refusal,
                        None => error == corrupt(old(self)@, id) && version_of(old(self)@, id)
                            >= MAX_RECORD_VERSION,
                    }
                },
            },
    {
        match self.validate_new_peer(name.as_str(), &id) {
            Ok(_) => {},
            Err(error) => {
                return Err(error);
            },
        }
        let version: u64 = match self.next_version(&id) {
            Ok(version) => version,
            Err(error) => {
                return Err(error);
            },
        };
        let peer = Peer { version, status: PeerStatus::Alive { name } };
        self.peers.insert(id, peer);
        assert(self@ =~= old(self)@.insert(id, peer@));
        Ok(())
    }

    /// Retires a machine, leaving a tombstone so the removal propagates instead
    /// of being undone by a machine that missed it.
    pub fn remove_peer(&mut self, id: &EndpointId) -> (result: Result<(), MeshError>)
        requires
            old(self).wf(),
        ensures
            final(self).wf(),
            match result {
                Ok(_) => {
                    &&& alive(old(self)@, *id)
                    &&& version_of(old(self)@, *id) < MAX_RECORD_VERSION
                    &&& final(self)@ == old(self)@.insert(
                        *id,
                        PeerView { version: (version_of(old(self)@, *id) + 1) as u64, name: None },
                    )
                },
                Err(error) => {
                    &&& final(self)@ == old(self)@
                    &&& error == (if alive(old(self)@, *id) {
                        corrupt(old(self)@, *id)
                    } else {
                        MeshError::Unknown
                    })
                    &&& !alive(old(self)@, *id) || version_of(old(self)@, *id)
                        >= MAX_RECORD_VERSION
                },
            },
    {
        if self.peer_name(id).is_none() {
            return Err(MeshError::Unknown);
        }
        let version: u64 = match self.next_version(id) {
            Ok(version) => version,
            Err(error) => {
                return Err(error);
            },
        };
        let peer = Peer { version, status: PeerStatus::Removed };
        self.peers.insert(*id, peer);
        assert(self@ =~= old(self)@.insert(*id, peer@));
        Ok(())
    }

    /// Adopts everything in `remote` that outranks what we hold.
    ///
    /// Our own record is skipped: it is ours to write, and adopting a stale
    /// copy of it would let a lagging peer undo a local rename. A machine
    /// removed by someone else therefore keeps its own record alive, but every
    /// peer refuses it.
    pub fn merge(&mut self, remote: &Membership, local: &EndpointId)
        requires
            old(self).wf(),
            remote.wf(),
        ensures
            final(self).wf(),
            final(self)@ == merged(old(self)@, remote@, *local),
    {
        let n: usize = remote.peers.len();
        let ghost pairs = remote.peers.pairs();
        let ghost ids = Seq::new(pairs.len(), |i: int| pairs[i].0);
        let mut i: usize = 0;
        assert(ids.take(0) =~= Seq::empty());
        while i < n
            invariant
                i <= n,
                n == pairs.len(),
                self.wf(),
                remote.wf(),
                pairs == remote.peers.pairs(),
                ids == Seq::new(pairs.len(), |i: int| pairs[i].0),
                self@ == merge_all(old(self)@, remote@, ids.take(i as int), *local),
            decreases n - i,
        {
            let id = remote.peers.key_at(i);
            let record = remote.peers.value_at(i);
            let ghost before = self@;
            proof {
                remote.peers.lemma_pairs();
                assert(remote.peers@.contains_key(pairs[i as int].0));
                assert(remote@[id] == record@);
                assert(ids.take(i + 1).drop_last() =~= ids.take(i as int));
                self.lemma_len();
            }
            if id != *local && record.is_usable() {
                let adopt = match self.peers.get(&id) {
                    Some(ours) => record.outranks(ours),
                    // An unknown machine is only adopted while there is room,
                    // so a peer cannot grow our state without bound.
                    None => self.peers.len() < MAX_MESH_PEERS,
                };
                if adopt {
                    let copy = record.clone();
                    self.peers.insert(id, copy);
                    assert(self@ =~= before.insert(id, record@));
                }
            }
            i += 1;
        }
        proof {
            remote.peers.lemma_pairs();
            assert(ids.take(i as int) =~= ids);
            assert forall|id: EndpointId| ids.contains(id) == #[trigger] remote@.dom().contains(id) by {
                if remote@.contains_key(id) {
                    assert(remote.peers@.contains_key(id));
                    let k = choose|k: int|
                        0 <= k < pairs.len() && (#[trigger] pairs[k]) == (id, remote.peers@[id]);
                    assert(ids[k] == id);
                }
                if ids.contains(id) {
                    let k = choose|k: int| 0 <= k < ids.len() && ids[k] == id;
                    assert(remote.peers@.contains_key(pairs[k].0));
                }
            }
            assert forall|a: int, b: int| 0 <= a < b < ids.len() implies (#[trigger] ids[a]).rank() < (
            #[trigger] ids[b]).rank() by {
                assert(pairs[a].0.rank() < pairs[b].0.rank());
            }
            ordmap::lemma_in_order(ids, remote@.dom());
        }
    }
}

/// The machines in the mesh that go by a name.
pub open spec fn named(peers: Map<EndpointId, PeerView>, needle: Seq<char>) -> Set<EndpointId> {
    peers.dom().filter(|id: EndpointId| peers[id].name == Some(needle))
}

/// The machines in the mesh whose id, in base16, begins with what was typed.
pub open spec fn with_prefix(peers: Map<EndpointId, PeerView>, needle: Seq<char>) -> Set<
    EndpointId,
> {
    peers.dom().filter(
        |id: EndpointId|
            peers[id].name is Some && needle.is_prefix_of(encoding::hex(id.key.bytes())),
    )
}

/// The machines that what was typed may mean: those that go by the name, or
/// else those whose id begins with it.
pub open spec fn meant(peers: Map<EndpointId, PeerView>, needle: Seq<char>) -> Seq<EndpointId> {
    if ordmap::in_order(named(peers, needle)).len() > 0 {
        ordmap::in_order(named(peers, needle))
    } else {
        ordmap::in_order(with_prefix(peers, needle))
    }
}

/// Some names read off a list of machines, in order, are those of a set.
proof fn lemma_found(
    ids: Seq<EndpointId>,
    places: Seq<int>,
    list: Seq<(EndpointId, &str)>,
    set: Set<EndpointId>,
)
    requires
        ids.len() == places.len(),
        forall|i: int, j: int|
            0 <= i < j < list.len() ==> (#[trigger] list[i]).0.rank() < (
            #[trigger] list[j]).0.rank(),
        forall|a: int|
            0 <= a < ids.len() ==> 0 <= #[trigger] places[a] < list.len() && ids[a]
                == list[places[a]].0 && set.contains(ids[a]),
        forall|a: int, b: int|
            0 <= a < b < ids.len() ==> #[trigger] places[a] < #[trigger] places[b],
        forall|id: EndpointId| #[trigger] set.contains(id) ==> ids.contains(id),
    ensures
        ids == ordmap::in_order(set),
{
    assert forall|a: int, b: int| 0 <= a < b < ids.len() implies (#[trigger] ids[a]).rank() < (
    #[trigger] ids[b]).rank() by {
        assert(places[a] < places[b]);
        assert(list[places[a]].0.rank() < list[places[b]].0.rank());
    }
    assert forall|id: EndpointId| ids.contains(id) == #[trigger] set.contains(id) by {
        if ids.contains(id) {
            let a = choose|a: int| 0 <= a < ids.len() && ids[a] == id;
            assert(0 <= places[a] < list.len());
        }
    }
    ordmap::lemma_in_order(ids, set);
}

impl MeshState {
    /// The machines in the mesh that go by a name.
    fn find_named(&self, needle: &str) -> (ids: Vec<EndpointId>)
        requires
            self.wf(),
        ensures
            ids@ == ordmap::in_order(named(self@, needle@)),
    {
        let list = self.alive_peers();
        let mut ids: Vec<EndpointId> = Vec::new();
        let ghost mut places: Seq<int> = Seq::empty();
        let ghost set = named(self@, needle@);
        let mut i: usize = 0;
        while i < list.len()
            invariant
                i <= list.len(),
                set == named(self@, needle@),
                ids@.len() == places.len(),
                forall|k: int|
                    0 <= k < list@.len() ==> {
                        &&& self@.contains_key((#[trigger] list@[k]).0)
                        &&& self@[list@[k].0].name == Some(list@[k].1@)
                    },
                forall|a: int|
                    0 <= a < ids@.len() ==> 0 <= #[trigger] places[a] < i && ids@[a]
                        == list@[places[a]].0 && set.contains(ids@[a]),
                forall|a: int, b: int|
                    0 <= a < b < ids@.len() ==> #[trigger] places[a] < #[trigger] places[b],
                forall|k: int|
                    0 <= k < i && set.contains((#[trigger] list@[k]).0) ==> ids@.contains(
                        list@[k].0,
                    ),
            decreases list.len() - i,
        {
            let (id, name) = list[i];
            let ghost before = ids@;
            assert(self@.contains_key(list@[i as int].0));
            if text::same(name, needle) {
                ids.push(id);
                proof {
                    places = places.push(i as int);
                    assert(ids@[before.len() as int] == id);
                }
            }
            assert forall|k: int| 0 <= k < i + 1 && set.contains((#[trigger] list@[k]).0) implies ids@.contains(
                list@[k].0,
            ) by {
                if k < i {
                    assert(before.contains(list@[k].0));
                    let a = choose|a: int| 0 <= a < before.len() && before[a] == list@[k].0;
                    assert(ids@[a] == list@[k].0);
                }
            }
            i += 1;
        }
        proof {
            assert forall|id: EndpointId| #[trigger] set.contains(id) implies ids@.contains(id) by {
                assert(self@.contains_key(id) && self@[id].name is Some);
                let k = choose|k: int| 0 <= k < list@.len() && (#[trigger] list@[k]).0 == id;
                assert(set.contains(list@[k].0));
            }
            lemma_found(ids@, places, list@, set);
        }
        ids
    }

    /// The machines in the mesh whose id begins with what was typed.
    fn find_prefixed(&self, needle: &str) -> (ids: Vec<EndpointId>)
        requires
            self.wf(),
        ensures
            ids@ == ordmap::in_order(with_prefix(self@, needle@)),
    {
        let list = self.alive_peers();
        let mut ids: Vec<EndpointId> = Vec::new();
        let ghost mut places: Seq<int> = Seq::empty();
        let ghost set = with_prefix(self@, needle@);
        let mut i: usize = 0;
        while i < list.len()
            invariant
                i <= list.len(),
                set == with_prefix(self@, needle@),
                ids@.len() == places.len(),
                forall|k: int|
                    0 <= k < list@.len() ==> {
                        &&& self@.contains_key((#[trigger] list@[k]).0)
                        &&& self@[list@[k].0].name == Some(list@[k].1@)
                    },
                forall|a: int|
                    0 <= a < ids@.len() ==> 0 <= #[trigger] places[a] < i && ids@[a]
                        == list@[places[a]].0 && set.contains(ids@[a]),
                forall|a: int, b: int|
                    0 <= a < b < ids@.len() ==> #[trigger] places[a] < #[trigger] places[b],
                forall|k: int|
                    0 <= k < i && set.contains((#[trigger] list@[k]).0) ==> ids@.contains(
                        list@[k].0,
                    ),
            decreases list.len() - i,
        {
            let (id, _) = list[i];
            let ghost before = ids@;
            assert(self@.contains_key(list@[i as int].0));
            let text = id.text();
            if text::starts_with(text.as_str(), needle) {
                ids.push(id);
                proof {
                    places = places.push(i as int);
                    assert(ids@[before.len() as int] == id);
                }
            }
            assert forall|k: int| 0 <= k < i + 1 && set.contains((#[trigger] list@[k]).0) implies ids@.contains(
                list@[k].0,
            ) by {
                if k < i {
                    assert(before.contains(list@[k].0));
                    let a = choose|a: int| 0 <= a < before.len() && before[a] == list@[k].0;
                    assert(ids@[a] == list@[k].0);
                }
            }
            i += 1;
        }
        proof {
            assert forall|id: EndpointId| #[trigger] set.contains(id) implies ids@.contains(id) by {
                assert(self@.contains_key(id) && self@[id].name is Some);
                let k = choose|k: int| 0 <= k < list@.len() && (#[trigger] list@[k]).0 == id;
                assert(set.contains(list@[k].0));
            }
            lemma_found(ids@, places, list@, set);
        }
        ids
    }

    /// Resolves what the user typed to a machine: an exact name, or a prefix
    /// of an endpoint id when no machine goes by it.
    pub fn resolve_peer(&self, needle: &str) -> (result: Result<EndpointId, MeshError>)
        requires
            self.wf(),
        ensures
            match result {
                Ok(id) => meant(self@, needle@) == seq![id],
                Err(MeshError::Unknown) => meant(self@, needle@).len() == 0,
                Err(MeshError::Ambiguous(n)) => n >= 2 && n == meant(self@, needle@).len(),
                Err(_) => false,
            },
    {
        let by_name = self.find_named(needle);
        let matched = if by_name.len() > 0 {
            by_name
        } else {
            self.find_prefixed(needle)
        };
        assert(matched@ == meant(self@, needle@));
        if matched.len() == 0 {
            Err(MeshError::Unknown)
        } else if matched.len() == 1 {
            assert(matched@ =~= seq![matched@[0]]);
            Ok(matched[0])
        } else {
            Err(MeshError::Ambiguous(matched.len()))
        }
    }
}

/// Of two different records one outranks the other, and never both.
pub proof fn records_are_ranked(a: PeerView, b: PeerView)
    ensures
        a == b || a.outranks(b) || b.outranks(a),
        !(a.outranks(b) && b.outranks(a)),
        !a.outranks(a),
{
    match (a.name, b.name) {
        (Some(x), Some(y)) => {
            text::lemma_before_is_total(x, y);
        },
        _ => {},
    }
    match a.name {
        Some(x) => {
            text::lemma_before_is_total(x, x);
        },
        None => {},
    }
}

/// Ranking goes through: what outranks a record outranks what it outranks.
pub proof fn ranking_is_transitive(a: PeerView, b: PeerView, c: PeerView)
    requires
        a.outranks(b),
        b.outranks(c),
    ensures
        a.outranks(c),
{
    match (a.name, b.name, c.name) {
        (Some(x), Some(y), Some(z)) => {
            if a.version == b.version && b.version == c.version {
                text::lemma_before_is_transitive(x, y, z);
            }
        },
        _ => {},
    }
}

/// The record two machines settle on: the one that outranks the other.
pub open spec fn settled(a: PeerView, b: PeerView) -> PeerView {
    if b.outranks(a) {
        b
    } else {
        a
    }
}

/// Two machines that hold different records of a third settle on the same one,
/// whichever hears from the other first.
pub proof fn merge_converges_on_one_record(a: PeerView, b: PeerView)
    ensures
        settled(a, b) == settled(b, a),
{
    records_are_ranked(a, b);
}

/// A tombstone beats a rename at the same version, and the rename does not
/// come back.
pub proof fn a_tombstone_beats_a_rename(version: u64, name: Seq<char>)
    ensures
        ({
            let gone = PeerView { version, name: None };
            let renamed = PeerView { version, name: Some(name) };
            gone.outranks(renamed) && !renamed.outranks(gone)
        }),
{
}

/// Some records into which one of a peer has been merged are settled with it.
pub open spec fn settled_with(
    peers: Map<EndpointId, PeerView>,
    id: EndpointId,
    record: PeerView,
    local: EndpointId,
) -> bool {
    ||| id == local
    ||| !record.usable()
    ||| peers.contains_key(id) && !record.outranks(peers[id])
    ||| !peers.contains_key(id) && peers.len() >= MAX_MESH_PEERS
}

proof fn lemma_merge_one(
    peers: Map<EndpointId, PeerView>,
    id: EndpointId,
    record: PeerView,
    local: EndpointId,
)
    requires
        peers.dom().finite(),
    ensures
        merge_one(peers, id, record, local).dom().finite(),
        peers.dom().subset_of(merge_one(peers, id, record, local).dom()),
        merge_one(peers, id, record, local).len() >= peers.len(),
        peers.len() <= MAX_MESH_PEERS ==> merge_one(peers, id, record, local).len()
            <= MAX_MESH_PEERS,
        peers.len() >= MAX_MESH_PEERS ==> merge_one(peers, id, record, local).dom() == peers.dom(),
        settled_with(merge_one(peers, id, record, local), id, record, local),
        settled_with(peers, id, record, local) ==> merge_one(peers, id, record, local) == peers,
        forall|other: EndpointId|
            #![trigger merge_one(peers, id, record, local)[other]]
            peers.contains_key(other) ==> merge_one(peers, id, record, local)[other]
                == peers[other] || merge_one(peers, id, record, local)[other].outranks(
                peers[other],
            ),
{
    records_are_ranked(record, record);
    let after = merge_one(peers, id, record, local);
    if peers.contains_key(id) {
        assert(peers.dom().insert(id) =~= peers.dom());
        assert(after.dom() =~= peers.dom());
    } else if peers.len() >= MAX_MESH_PEERS {
        assert(after.dom() =~= peers.dom());
    }
}

/// What is settled with a record stays settled with it as more is merged.
proof fn lemma_stays_settled(
    peers: Map<EndpointId, PeerView>,
    id: EndpointId,
    record: PeerView,
    other: EndpointId,
    offered: PeerView,
    local: EndpointId,
)
    requires
        peers.dom().finite(),
        settled_with(peers, id, record, local),
    ensures
        settled_with(merge_one(peers, other, offered, local), id, record, local),
{
    lemma_merge_one(peers, other, offered, local);
    let after = merge_one(peers, other, offered, local);
    if id != local && record.usable() {
        if peers.contains_key(id) {
            assert(after[id] == peers[id] || after[id].outranks(peers[id]));
            if record.outranks(after[id]) && after[id].outranks(peers[id]) {
                ranking_is_transitive(record, after[id], peers[id]);
            }
        } else {
            assert(after.dom() == peers.dom());
        }
    }
}

proof fn lemma_merge_all(
    peers: Map<EndpointId, PeerView>,
    remote: Map<EndpointId, PeerView>,
    ids: Seq<EndpointId>,
    local: EndpointId,
)
    requires
        peers.dom().finite(),
    ensures
        merge_all(peers, remote, ids, local).dom().finite(),
        peers.len() <= MAX_MESH_PEERS ==> merge_all(peers, remote, ids, local).len()
            <= MAX_MESH_PEERS,
        forall|i: int|
            0 <= i < ids.len() ==> settled_with(
                merge_all(peers, remote, ids, local),
                #[trigger] ids[i],
                remote[ids[i]],
                local,
            ),
    decreases ids.len(),
{
    if ids.len() > 0 {
        let rest = ids.drop_last();
        lemma_merge_all(peers, remote, rest, local);
        let before = merge_all(peers, remote, rest, local);
        lemma_merge_one(before, ids.last(), remote[ids.last()], local);
        let after = merge_all(peers, remote, ids, local);
        assert forall|i: int| 0 <= i < ids.len() implies settled_with(
            after,
            #[trigger] ids[i],
            remote[ids[i]],
            local,
        ) by {
            if i < rest.len() {
                assert(rest[i] == ids[i]);
                lemma_stays_settled(
                    before,
                    ids[i],
                    remote[ids[i]],
                    ids.last(),
                    remote[ids.last()],
                    local,
                );
            }
        }
    }
}

proof fn lemma_merge_settled(
    peers: Map<EndpointId, PeerView>,
    remote: Map<EndpointId, PeerView>,
    ids: Seq<EndpointId>,
    local: EndpointId,
)
    requires
        peers.dom().finite(),
        forall|i: int|
            0 <= i < ids.len() ==> settled_with(peers, #[trigger] ids[i], remote[ids[i]], local),
    ensures
        merge_all(peers, remote, ids, local) == peers,
    decreases ids.len(),
{
    if ids.len() > 0 {
        let rest = ids.drop_last();
        assert forall|i: int| 0 <= i < rest.len() implies settled_with(
            peers,
            #[trigger] rest[i],
            remote[rest[i]],
            local,
        ) by {
            assert(rest[i] == ids[i]);
        }
        lemma_merge_settled(peers, remote, rest, local);
        assert(settled_with(
            peers,
            ids[ids.len() - 1],
            remote[ids[ids.len() - 1]],
            local,
        ));
        lemma_merge_one(peers, ids.last(), remote[ids.last()], local);
    }
}

/// Merging the same view again changes nothing, which is what stops the gossip
/// from echoing forever.
pub proof fn merging_twice_changes_nothing(
    peers: Map<EndpointId, PeerView>,
    remote: Map<EndpointId, PeerView>,
    local: EndpointId,
)
    requires
        peers.dom().finite(),
    ensures
        merged(merged(peers, remote, local), remote, local) == merged(peers, remote, local),
{
    let ids = ordmap::in_order(remote.dom());
    lemma_merge_all(peers, remote, ids, local);
    lemma_merge_settled(merge_all(peers, remote, ids, local), remote, ids, local);
}

/// Whether a record of a peer is one to take into account.
pub open spec fn counts(
    remote: Map<EndpointId, PeerView>,
    id: EndpointId,
    local: EndpointId,
) -> bool {
    remote.contains_key(id) && id != local && remote[id].usable()
}

/// Some records joined with those of a peer, with room for all of them.
pub open spec fn joined(
    peers: Map<EndpointId, PeerView>,
    remote: Map<EndpointId, PeerView>,
    local: EndpointId,
) -> Map<EndpointId, PeerView> {
    Map::new(
        |id: EndpointId| peers.contains_key(id) || counts(remote, id, local),
        |id: EndpointId|
            if !peers.contains_key(id) {
                remote[id]
            } else if counts(remote, id, local) {
                settled(peers[id], remote[id])
            } else {
                peers[id]
            },
    )
}

proof fn lemma_merge_joins(
    peers: Map<EndpointId, PeerView>,
    remote: Map<EndpointId, PeerView>,
    ids: Seq<EndpointId>,
    local: EndpointId,
)
    requires
        peers.dom().finite(),
        remote.dom().finite(),
        peers.dom().union(remote.dom()).len() <= MAX_MESH_PEERS,
        forall|i: int, j: int| 0 <= i < j < ids.len() ==> #[trigger] ids[i] != #[trigger] ids[j],
        forall|i: int| 0 <= i < ids.len() ==> remote.contains_key(#[trigger] ids[i]),
    ensures
        merge_all(peers, remote, ids, local) == joined(
            peers,
            remote.restrict(ids.to_set()),
            local,
        ),
    decreases ids.len(),
{
    let after = merge_all(peers, remote, ids, local);
    let offered = remote.restrict(ids.to_set());
    if ids.len() == 0 {
        assert(after =~= joined(peers, offered, local));
    } else {
        let rest = ids.drop_last();
        let x = ids.last();
        let less = remote.restrict(rest.to_set());
        let before = merge_all(peers, remote, rest, local);
        lemma_merge_joins(peers, remote, rest, local);
        assert(!rest.contains(x)) by {
            if rest.contains(x) {
                let i = choose|i: int| 0 <= i < rest.len() && rest[i] == x;
                assert(ids[i] == ids[ids.len() - 1]);
            }
        }
        assert(ids[ids.len() - 1] == x);
        assert(remote.contains_key(x));
        assert forall|id: EndpointId| #[trigger] offered.contains_key(id) == (less.contains_key(id)
            || id == x) by {
            if ids.contains(id) {
                let i = choose|i: int| 0 <= i < ids.len() && ids[i] == id;
                if i < rest.len() {
                    assert(rest[i] == id);
                }
            }
            if rest.contains(id) {
                let i = choose|i: int| 0 <= i < rest.len() && rest[i] == id;
                assert(ids[i] == id);
            }
        }
        assert(!less.contains_key(x));
        if !peers.contains_key(x) {
            let all = peers.dom().union(remote.dom());
            assert(!before.contains_key(x));
            assert(before.dom().subset_of(all.remove(x)));
            vstd::set_lib::lemma_len_subset(before.dom(), all.remove(x));
            assert(all.contains(x));
        }
        assert(after =~= joined(peers, offered, local));
    }
}

/// With room for every machine that either names, merging joins.
proof fn lemma_merged_joins(
    peers: Map<EndpointId, PeerView>,
    remote: Map<EndpointId, PeerView>,
    local: EndpointId,
)
    requires
        peers.dom().finite(),
        remote.dom().finite(),
        peers.dom().union(remote.dom()).len() <= MAX_MESH_PEERS,
    ensures
        merged(peers, remote, local) == joined(peers, remote, local),
        merged(peers, remote, local).dom().finite(),
        merged(peers, remote, local).dom().subset_of(peers.dom().union(remote.dom())),
{
    let ids = ordmap::in_order(remote.dom());
    ordmap::lemma_in_order_holds(remote.dom());
    assert forall|i: int, j: int| 0 <= i < j < ids.len() implies #[trigger] ids[i]
        != #[trigger] ids[j] by {
        assert(ids[i].rank() < ids[j].rank());
    }
    assert forall|i: int| 0 <= i < ids.len() implies remote.contains_key(#[trigger] ids[i]) by {
        assert(ids.contains(ids[i]));
        assert(remote.dom().contains(ids[i]));
    }
    lemma_merge_joins(peers, remote, ids, local);
    lemma_merge_all(peers, remote, ids, local);
    assert(remote.restrict(ids.to_set()) =~= remote);
}

/// Of three records it does not matter which two settle first.
proof fn lemma_settling_swaps(own: PeerView, a: PeerView, b: PeerView)
    ensures
        settled(settled(own, a), b) == settled(settled(own, b), a),
{
    records_are_ranked(own, a);
    records_are_ranked(own, b);
    records_are_ranked(a, b);
    if a.outranks(own) && own.outranks(b) {
        ranking_is_transitive(a, own, b);
    }
    if b.outranks(own) && own.outranks(a) {
        ranking_is_transitive(b, own, a);
    }
    if a.outranks(b) && b.outranks(own) {
        ranking_is_transitive(a, b, own);
    }
    if b.outranks(a) && a.outranks(own) {
        ranking_is_transitive(b, a, own);
    }
}

/// Merging the views of two peers ends in the same records whichever comes
/// first, and merging either of them once more changes nothing, while no more
/// machines are named than a mesh has room for.
pub proof fn the_order_of_merging_decides_nothing(
    peers: Map<EndpointId, PeerView>,
    a: Map<EndpointId, PeerView>,
    b: Map<EndpointId, PeerView>,
    local: EndpointId,
)
    requires
        peers.dom().finite(),
        a.dom().finite(),
        b.dom().finite(),
        peers.dom().union(a.dom()).union(b.dom()).len() <= MAX_MESH_PEERS,
    ensures
        ({
            let both = merged(merged(peers, a, local), b, local);
            &&& both == merged(merged(peers, b, local), a, local)
            &&& merged(both, a, local) == both
            &&& merged(both, b, local) == both
        }),
{
    lemma_merging_swaps(peers, a, b, local);
    let first = merged(peers, a, local);
    lemma_room(peers, a, b);
    lemma_merged_joins(peers, a, local);
    merging_twice_changes_nothing(first, b, local);
    let all = peers.dom().union(a.dom()).union(b.dom());
    assert(first.dom().union(a.dom()).union(b.dom()).subset_of(all));
    vstd::set_lib::lemma_len_subset(first.dom().union(a.dom()).union(b.dom()), all);
    lemma_merging_swaps(first, a, b, local);
    merging_twice_changes_nothing(peers, a, local);
}

proof fn lemma_room(
    peers: Map<EndpointId, PeerView>,
    a: Map<EndpointId, PeerView>,
    b: Map<EndpointId, PeerView>,
)
    requires
        peers.dom().finite(),
        a.dom().finite(),
        b.dom().finite(),
    ensures
        peers.dom().union(a.dom()).len() <= peers.dom().union(a.dom()).union(b.dom()).len(),
        peers.dom().union(b.dom()).len() <= peers.dom().union(a.dom()).union(b.dom()).len(),
{
    let all = peers.dom().union(a.dom()).union(b.dom());
    vstd::set_lib::lemma_len_subset(peers.dom().union(a.dom()), all);
    vstd::set_lib::lemma_len_subset(peers.dom().union(b.dom()), all);
}

proof fn lemma_merging_swaps(
    peers: Map<EndpointId, PeerView>,
    a: Map<EndpointId, PeerView>,
    b: Map<EndpointId, PeerView>,
    local: EndpointId,
)
    requires
        peers.dom().finite(),
        a.dom().finite(),
        b.dom().finite(),
        peers.dom().union(a.dom()).union(b.dom()).len() <= MAX_MESH_PEERS,
    ensures
        merged(merged(peers, a, local), b, local) == merged(merged(peers, b, local), a, local),
{
    let all = peers.dom().union(a.dom()).union(b.dom());
    lemma_room(peers, a, b);
    lemma_merged_joins(peers, a, local);
    lemma_merged_joins(peers, b, local);
    let with_a = merged(peers, a, local);
    let with_b = merged(peers, b, local);
    assert(with_a.dom().union(b.dom()).subset_of(all));
    assert(with_b.dom().union(a.dom()).subset_of(all));
    vstd::set_lib::lemma_len_subset(with_a.dom().union(b.dom()), all);
    vstd::set_lib::lemma_len_subset(with_b.dom().union(a.dom()), all);
    lemma_merged_joins(with_a, b, local);
    lemma_merged_joins(with_b, a, local);
    let ab = joined(with_a, b, local);
    let ba = joined(with_b, a, local);
    assert forall|id: EndpointId| ab.contains_key(id) implies #[trigger] ab[id] == ba[id] by {
        if peers.contains_key(id) {
            lemma_settling_swaps(peers[id], a[id], b[id]);
        } else if counts(a, id, local) && counts(b, id, local) {
            merge_converges_on_one_record(a[id], b[id]);
        }
    }
    assert(ab =~= ba);
}

/// A peer cannot grow the mesh past its cap.
pub proof fn the_mesh_stays_bounded(
    peers: Map<EndpointId, PeerView>,
    remote: Map<EndpointId, PeerView>,
    local: EndpointId,
)
    requires
        peers.dom().finite(),
        peers.len() <= MAX_MESH_PEERS,
    ensures
        merged(peers, remote, local).len() <= MAX_MESH_PEERS,
{
    lemma_merge_all(peers, remote, ordmap::in_order(remote.dom()), local);
}

proof fn lemma_own_record(
    peers: Map<EndpointId, PeerView>,
    remote: Map<EndpointId, PeerView>,
    ids: Seq<EndpointId>,
    local: EndpointId,
)
    ensures
        merge_all(peers, remote, ids, local).contains_key(local) == peers.contains_key(local),
        peers.contains_key(local) ==> merge_all(peers, remote, ids, local)[local] == peers[local],
    decreases ids.len(),
{
    if ids.len() > 0 {
        lemma_own_record(peers, remote, ids.drop_last(), local);
    }
}

/// Our own record is never adopted from a peer.
pub proof fn our_own_record_is_never_adopted(
    peers: Map<EndpointId, PeerView>,
    remote: Map<EndpointId, PeerView>,
    local: EndpointId,
)
    ensures
        merged(peers, remote, local).contains_key(local) == peers.contains_key(local),
        peers.contains_key(local) ==> merged(peers, remote, local)[local] == peers[local],
{
    lemma_own_record(peers, remote, ordmap::in_order(remote.dom()), local);
}

/// After a merge, a machine both sides know of is settled: what we hold of it
/// is nothing a peer's record outranks.
pub proof fn a_merge_settles_every_record(
    peers: Map<EndpointId, PeerView>,
    remote: Map<EndpointId, PeerView>,
    local: EndpointId,
    id: EndpointId,
)
    requires
        peers.dom().finite(),
        remote.dom().finite(),
        remote.contains_key(id),
    ensures
        settled_with(merged(peers, remote, local), id, remote[id], local),
{
    let ids = ordmap::in_order(remote.dom());
    ordmap::lemma_in_order_holds(remote.dom());
    lemma_merge_all(peers, remote, ids, local);
    assert(remote.dom().contains(id));
    assert(ids.contains(id));
    let i = choose|i: int| 0 <= i < ids.len() && ids[i] == id;
    assert(settled_with(merge_all(peers, remote, ids, local), ids[i], remote[ids[i]], local));
}

/// Pairing a machine again outranks its tombstone on every machine.
pub proof fn pairing_again_outranks_a_tombstone(
    peers: Map<EndpointId, PeerView>,
    id: EndpointId,
    name: Seq<char>,
)
    requires
        peers.contains_key(id),
        version_of(peers, id) < MAX_RECORD_VERSION,
    ensures
        (PeerView { version: (version_of(peers, id) + 1) as u64, name: Some(name) }).outranks(
            peers[id],
        ),
{
}

/// Whether a name may be shown: it has between one and sixty-four characters,
/// and no control character among them.
pub open spec fn proper_name(name: Seq<char>) -> bool {
    1 <= name.len() <= 64 && forall|i: int| 0 <= i < name.len() ==> !text::control(#[trigger] name[i])
}

/// Whether a record can be believed: a local change can still supersede it, and
/// its name, when it has one, may be shown.
pub open spec fn believable(record: PeerView) -> bool {
    record.version < 0x1_0000_0000 && (record.name matches Some(name) ==> proper_name(name))
}

/// What a peer knows is learned: every machine it names is known here from then
/// on, under the newer of the two records, and one that was removed stays so;
/// what the peer does not name stays as it was, and nothing else comes in. Our
/// own record, and records that cannot be believed, are left aside; and there
/// has to be room.
pub proof fn what_a_peer_knows_is_learned(
    peers: Map<EndpointId, PeerView>,
    remote: Map<EndpointId, PeerView>,
    local: EndpointId,
    id: EndpointId,
)
    requires
        peers.dom().finite(),
        remote.dom().finite(),
        peers.dom().union(remote.dom()).len() <= 64,
    ensures
        ({
            let after = merged(peers, remote, local);
            let heard = remote.contains_key(id) && id != local && believable(remote[id]);
            &&& after.contains_key(id) <==> peers.contains_key(id) || heard
            &&& peers.contains_key(id) && !heard ==> after[id] == peers[id]
            &&& !peers.contains_key(id) && heard ==> after[id] == remote[id]
            &&& peers.contains_key(id) && heard ==> {
                &&& remote[id].version > peers[id].version ==> after[id] == remote[id]
                &&& remote[id].version < peers[id].version ==> after[id] == peers[id]
                &&& remote[id].version == peers[id].version ==> after[id].version
                    == peers[id].version && (remote[id].name is None || peers[id].name is None
                    ==> after[id].name is None) && (after[id] == remote[id] || after[id]
                    == peers[id])
            }
        }),
{
    lemma_merged_joins(peers, remote, local);
    if remote.contains_key(id) {
        lemma_believable(remote[id]);
    }
}

proof fn lemma_believable(record: PeerView)
    ensures
        record.usable() == believable(record),
{
    if let Some(name) = record.name {
        which_names_are_taken(name);
    }
}

/// A name is taken exactly when it may be shown, and what is wrong with one that
/// is not is told.
pub proof fn which_names_are_taken(name: Seq<char>)
    ensures
        name::name_refusal(name) is None <==> proper_name(name),
        name.len() == 0 ==> name::name_refusal(name) == Some(NameError::Empty),
        name.len() > 64 ==> name::name_refusal(name) == Some(NameError::TooLong),
        1 <= name.len() <= 64 && !proper_name(name) ==> name::name_refusal(name) == Some(
            NameError::Control,
        ),
{
}

/// A machine can be added under a name that may be shown, unless it is a new one
/// and there are sixty-four already.
pub proof fn who_can_be_added(
    peers: Map<EndpointId, PeerView>,
    name: Seq<char>,
    id: EndpointId,
)
    ensures
        new_peer_refusal(peers, name, id) is None <==> proper_name(name) && (peers.contains_key(id)
            || peers.len() < 64),
        proper_name(name) && !peers.contains_key(id) && peers.len() >= 64 ==> new_peer_refusal(
            peers,
            name,
            id,
        ) == Some(MeshError::Full),
{
    which_names_are_taken(name);
}

/// What was typed means the machines of the mesh that go by it, and when none
/// does those whose id in base16 begins with it; each once, and none that was
/// removed.
pub proof fn whom_what_was_typed_means(
    peers: Map<EndpointId, PeerView>,
    needle: Seq<char>,
    id: EndpointId,
)
    requires
        peers.dom().finite(),
    ensures
        meant(peers, needle).no_duplicates(),
        (exists|other: EndpointId| #[trigger]
            peers.contains_key(other) && peers[other].name == Some(needle)) ==> (meant(
            peers,
            needle,
        ).contains(id) <==> peers.contains_key(id) && peers[id].name == Some(needle)),
        !(exists|other: EndpointId| #[trigger]
            peers.contains_key(other) && peers[other].name == Some(needle)) ==> (meant(
            peers,
            needle,
        ).contains(id) <==> peers.contains_key(id) && peers[id].name is Some
            && needle.is_prefix_of(encoding::hex(id.key.bytes()))),
{
    let by_name = named(peers, needle);
    let by_id = with_prefix(peers, needle);
    ordmap::lemma_in_order_holds(by_name);
    ordmap::lemma_in_order_holds(by_id);
    assert(by_name.contains(id) == (peers.contains_key(id) && peers[id].name == Some(needle)));
    assert(by_id.contains(id) == (peers.contains_key(id) && peers[id].name is Some
        && needle.is_prefix_of(encoding::hex(id.key.bytes()))));
    let list = ordmap::in_order(by_name);
    if exists|other: EndpointId| #[trigger]
        peers.contains_key(other) && peers[other].name == Some(needle) {
        let other = choose|other: EndpointId| #[trigger]
            peers.contains_key(other) && peers[other].name == Some(needle);
        assert(by_name.contains(other));
        assert(list.contains(other));
        assert(list.len() > 0);
    } else {
        if list.len() > 0 {
            assert(list.contains(list[0]));
            assert(by_name.contains(list[0]));
            assert(peers.contains_key(list[0]));
        }
    }
    let all = meant(peers, needle);
    assert forall|i: int, j: int| 0 <= i < all.len() && 0 <= j < all.len() && i != j implies all[i]
        != all[j] by {
        if i < j {
            assert(all[i].rank() < all[j].rank());
        } else {
            assert(all[j].rank() < all[i].rank());
        }
    }
}


} // verus!
