//! The owner of the mesh state.
//!
//! Every change to who is in the mesh goes through here, whether it came from
//! the user over the control socket or from a peer's gossip. A change is first
//! proposed: nothing is committed if it is refused, and a change that changes
//! nothing writes and sends nothing, which is what stops the gossip from
//! echoing back and forth forever. What is proposed is saved, then committed,
//! and then told to the peers.

use crate::config::mesh;
use crate::config::mesh::{Membership, MeshError, MeshState, PeerView};
use crate::log::EndpointId;
use crate::net::pair::PairedPeer;
use vstd::prelude::*;

verus! {

/// The mesh state, as it is saved.
pub struct MeshStore {
    state: MeshState,
}

impl View for MeshStore {
    type V = Map<EndpointId, PeerView>;

    closed spec fn view(&self) -> Map<EndpointId, PeerView> {
        self.state@
    }
}

/// The records once a machine that just paired is registered, or why it cannot
/// be.
pub open spec fn with_paired(peers: Map<EndpointId, PeerView>, name: Seq<char>, id: EndpointId) -> Result<
    Map<EndpointId, PeerView>,
    MeshError,
> {
    if mesh::alive(peers, id) {
        Ok(peers)
    } else {
        match mesh::new_peer_refusal(peers, name, id) {
            Some(error) => Err(error),
            None => if mesh::version_of(peers, id) >= mesh::MAX_RECORD_VERSION {
                Err(mesh::corrupt(peers, id))
            } else {
                Ok(
                    peers.insert(
                        id,
                        PeerView {
                            version: (mesh::version_of(peers, id) + 1) as u64,
                            name: Some(name),
                        },
                    ),
                )
            },
        }
    }
}

/// The records once a machine is removed, or why it cannot be.
pub open spec fn without_peer(peers: Map<EndpointId, PeerView>, id: EndpointId) -> Result<
    Map<EndpointId, PeerView>,
    MeshError,
> {
    if !mesh::alive(peers, id) {
        Err(MeshError::Unknown)
    } else if mesh::version_of(peers, id) >= mesh::MAX_RECORD_VERSION {
        Err(mesh::corrupt(peers, id))
    } else {
        Ok(
            peers.insert(
                id,
                PeerView { version: (mesh::version_of(peers, id) + 1) as u64, name: None },
            ),
        )
    }
}

/// Whether a proposal is what a change to some records amounts to: nothing to
/// save when nothing changes, and otherwise the records as they will be.
pub open spec fn proposes(
    proposal: Result<Option<MeshState>, MeshError>,
    peers: Map<EndpointId, PeerView>,
    change: Result<Map<EndpointId, PeerView>, MeshError>,
) -> bool {
    match change {
        Err(error) => proposal == Err::<Option<MeshState>, MeshError>(error),
        Ok(next) => {
            &&& proposal matches Ok(next_state)
            &&& match next_state {
                None => next == peers,
                Some(state) => state.wf() && state@ == next && next != peers,
            }
        },
    }
}

impl MeshStore {
    /// Whether the records are in order.
    pub closed spec fn wf(&self) -> bool {
        self.state.wf()
    }

    /// Adopts the loaded state.
    pub fn new(state: MeshState) -> (store: Self)
        requires
            state.wf(),
        ensures
            store.wf(),
            store@ == state@,
    {
        MeshStore { state }
    }

    /// The current state.
    pub fn state(&self) -> (state: &MeshState)
        requires
            self.wf(),
        ensures
            state.wf(),
            state@ == self@,
    {
        &self.state
    }

    /// A copy of the current state.
    pub fn snapshot(&self) -> (state: MeshState)
        requires
            self.wf(),
        ensures
            state.wf(),
            state@ == self@,
    {
        self.state.clone()
    }

    /// What to save of a changed copy of the state.
    fn changed(&self, next: MeshState) -> (proposal: Option<MeshState>)
        requires
            self.wf(),
            next.wf(),
        ensures
            match proposal {
                None => next@ == self@,
                Some(state) => state == next && next@ != self@,
            },
    {
        if next.same(&self.state) {
            None
        } else {
            Some(next)
        }
    }

    /// Registers a machine that just paired. Doing it twice is harmless, which
    /// is what makes a half-finished pairing repairable by pairing again.
    pub fn add_paired(&self, peer: &PairedPeer) -> (proposal: Result<Option<MeshState>, MeshError>)
        requires
            self.wf(),
        ensures
            proposes(proposal, self@, with_paired(self@, peer.name@, peer.endpoint)),
    {
        if self.state.peer_name(&peer.endpoint).is_some() {
            return Ok(None);
        }
        let mut next = self.state.clone();
        match next.add_peer(peer.endpoint, peer.name.clone()) {
            Ok(_) => Ok(self.changed(next)),
            Err(error) => Err(error),
        }
    }

    /// Removes a machine from the mesh.
    pub fn remove(&self, id: &EndpointId) -> (proposal: Result<Option<MeshState>, MeshError>)
        requires
            self.wf(),
        ensures
            proposes(proposal, self@, without_peer(self@, *id)),
    {
        let mut next = self.state.clone();
        match next.remove_peer(id) {
            Ok(_) => Ok(self.changed(next)),
            Err(error) => Err(error),
        }
    }

    /// Merges the mesh state a peer sent us.
    ///
    /// A merge that changes something is saved and sent on, which is what
    /// carries membership to machines we are not talking to directly; a merge
    /// that changes nothing is silent, which is what stops the echo.
    pub fn merge(&self, membership: &Membership, local: &EndpointId) -> (proposal: Option<MeshState>)
        requires
            self.wf(),
            membership.wf(),
        ensures
            proposes(
                Ok(proposal),
                self@,
                Ok(mesh::merged(self@, membership@, *local)),
            ),
    {
        let mut next = self.state.clone();
        next.merge(membership, local);
        self.changed(next)
    }

    /// Commits what was proposed and saved.
    pub fn commit(&mut self, next: MeshState)
        requires
            old(self).wf(),
            next.wf(),
        ensures
            final(self).wf(),
            final(self)@ == next@,
    {
        self.state = next;
    }
}

/// Registering a machine that just paired a second time changes nothing.
pub proof fn registering_twice_changes_nothing(
    peers: Map<EndpointId, PeerView>,
    name: Seq<char>,
    id: EndpointId,
    again: Seq<char>,
)
    requires
        with_paired(peers, name, id) is Ok,
    ensures
        ({
            let next = with_paired(peers, name, id)->Ok_0;
            with_paired(next, again, id) == Ok::<Map<EndpointId, PeerView>, MeshError>(next)
        }),
{
}

/// The same gossip twice is echoed at most once: the second time there is
/// nothing to save, and so nothing to send.
pub proof fn gossip_does_not_echo(
    peers: Map<EndpointId, PeerView>,
    remote: Map<EndpointId, PeerView>,
    local: EndpointId,
    proposal: Option<MeshState>,
)
    requires
        remote.dom().finite(),
        peers.dom().finite(),
        proposes(
            Ok(proposal),
            mesh::merged(peers, remote, local),
            Ok(mesh::merged(mesh::merged(peers, remote, local), remote, local)),
        ),
    ensures
        proposal is None,
{
    mesh::merging_twice_changes_nothing(peers, remote, local);
}

/// A machine that paired is in the mesh from then on under its name, and one
/// that was removed is not, and either change outranks what was known of it;
/// nothing else changes. Pairing with a machine that is in the mesh changes
/// nothing at all.
pub proof fn pairing_and_removing_change_one_machine(
    peers: Map<EndpointId, PeerView>,
    name: Seq<char>,
    id: EndpointId,
)
    requires
        peers.contains_key(id) ==> peers[id].version < 0x1_0000_0000,
    ensures
        ({
            let known = peers.contains_key(id) && peers[id].name is Some;
            &&& known ==> with_paired(peers, name, id) == Ok::<
                Map<EndpointId, PeerView>,
                MeshError,
            >(peers)
            &&& !known && mesh::proper_name(name) && (peers.contains_key(id) || peers.len() < 64)
                ==> (with_paired(peers, name, id) matches Ok(next) && next.contains_key(id)
                && next[id].name == Some(name) && next[id].version >= 1 && (peers.contains_key(id)
                ==> next[id].version > peers[id].version) && next.remove(id) == peers.remove(id))
            &&& known ==> (without_peer(peers, id) matches Ok(next) && next.contains_key(id)
                && next[id].name is None && next[id].version > peers[id].version && next.remove(id)
                == peers.remove(id))
            &&& !known ==> without_peer(peers, id) == Err::<
                Map<EndpointId, PeerView>,
                MeshError,
            >(MeshError::Unknown)
        }),
{
    mesh::who_can_be_added(peers, name, id);
    if let Ok(next) = with_paired(peers, name, id) {
        assert(next.remove(id) =~= peers.remove(id));
    }
    if let Ok(next) = without_peer(peers, id) {
        assert(next.remove(id) =~= peers.remove(id));
    }
}


} // verus!
