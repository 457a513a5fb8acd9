//! Who is in the mesh, and how machines agree on it.

use yank::config::mesh::{
    Membership, MeshError, MeshState, Peer, PeerStatus, MAX_MESH_PEERS, MAX_RECORD_VERSION,
};
use yank::config::name::{sanitize, sanitize_bounded, validate_name, NameError, MAX_NAME_LEN};
use yank::config::MachineKey;
use yank::daemon::store::MeshStore;
use yank::log::EndpointId;
use yank::net::pair::PairedPeer;
use yank::ordmap::OrdMap;

fn endpoint() -> EndpointId {
    MachineKey::generate().endpoint_id()
}

fn membership(id: EndpointId, version: u64, name: Option<&str>) -> Membership {
    let status = match name {
        Some(name) => PeerStatus::Alive {
            name: name.to_owned(),
        },
        None => PeerStatus::Removed,
    };
    let mut peers = OrdMap::new();
    peers.insert(id, Peer { version, status });
    Membership { peers }
}

#[test]
fn merge_converges_on_one_record() {
    let (local, peer) = (endpoint(), endpoint());
    let mut state = MeshState::default();

    state.merge(&membership(peer, 2, Some("laptop")), &local);
    assert_eq!(state.peer_name(&peer), Some("laptop"));

    // A lower version never downgrades the record.
    state.merge(&membership(peer, 1, Some("aaa")), &local);
    assert_eq!(state.peer_name(&peer), Some("laptop"));

    // An equal version only wins with a smaller name, so two machines renaming
    // concurrently settle on the same one.
    state.merge(&membership(peer, 2, Some("zzz")), &local);
    assert_eq!(state.peer_name(&peer), Some("laptop"));
    state.merge(&membership(peer, 2, Some("aaa")), &local);
    assert_eq!(state.peer_name(&peer), Some("aaa"));

    // Re-merging changes nothing, which is what stops the gossip from echoing
    // forever.
    let before = state.clone();
    state.merge(&membership(peer, 2, Some("aaa")), &local);
    assert!(state.same(&before));
}

#[test]
fn the_order_of_merging_decides_nothing() {
    let (local, peer, third) = (endpoint(), endpoint(), endpoint());
    let one = membership(peer, 2, Some("laptop"));
    let mut two = membership(peer, 2, Some("desk"));
    two.peers.insert(
        third,
        Peer {
            version: 5,
            status: PeerStatus::Removed,
        },
    );

    let mut forth = MeshState::default();
    forth.merge(&one, &local);
    forth.merge(&two, &local);
    let mut back = MeshState::default();
    back.merge(&two, &local);
    back.merge(&one, &local);
    assert!(forth.same(&back));
    assert_eq!(forth.peer_name(&peer), Some("desk"));

    forth.merge(&one, &local);
    forth.merge(&two, &local);
    assert!(forth.same(&back));
}

#[test]
fn a_corrupt_record_is_told_with_its_machine_and_version() {
    let peer = endpoint();
    let error = MeshError::Corrupt {
        id: peer,
        version: MAX_RECORD_VERSION,
    };
    assert_eq!(
        error.text(),
        format!(
            "the record of `{}` is corrupt (version 4294967296); \
             remove it from mesh.json on every machine",
            peer.text(),
        )
    );
}

#[test]
fn a_tombstone_beats_a_rename_at_the_same_version() {
    let (local, peer) = (endpoint(), endpoint());
    let mut state = MeshState::default();

    state.merge(&membership(peer, 3, Some("laptop")), &local);
    state.merge(&membership(peer, 3, None), &local);
    assert_eq!(state.peer_name(&peer), None);

    // ...and it cannot be undone at that version either.
    state.merge(&membership(peer, 3, Some("laptop")), &local);
    assert_eq!(state.peer_name(&peer), None);

    // Pairing again outranks the tombstone.
    state.add_peer(peer, "laptop".to_owned()).unwrap();
    assert_eq!(state.peer_name(&peer), Some("laptop"));
}

#[test]
fn our_own_record_is_never_adopted() {
    let local = endpoint();
    let mut state = MeshState::default();

    state.merge(&membership(local, 9, Some("impostor")), &local);
    assert!(state.peers.len() == 0);
}

#[test]
fn peers_resolve_by_name_or_id_prefix() {
    let peer = endpoint();
    let mut state = MeshState::default();
    state.add_peer(peer, "laptop".to_owned()).unwrap();

    assert_eq!(state.resolve_peer("laptop").unwrap(), peer);
    assert_eq!(state.resolve_peer(&peer.text()[..8]).unwrap(), peer);
    assert!(state.resolve_peer("desktop").is_err());
}

#[test]
fn removal_needs_a_known_machine() {
    let mut state = MeshState::default();
    assert!(state.remove_peer(&endpoint()).is_err());
}

#[test]
fn a_removed_machine_is_no_longer_listed() {
    let peer = endpoint();
    let mut state = MeshState::default();
    state.add_peer(peer, "laptop".to_owned()).unwrap();
    assert_eq!(state.alive_peers(), vec![(peer, "laptop")]);
    state.remove_peer(&peer).unwrap();
    assert!(state.alive_peers().is_empty());
    assert!(state.peer_name(&peer).is_none());
}

/// A mesh at the cap takes no other machine, neither by pairing nor by gossip.
#[test]
fn the_mesh_stays_bounded() {
    let local = endpoint();
    let mut state = MeshState::default();
    for n in 0..MAX_MESH_PEERS {
        state.add_peer(endpoint(), format!("machine-{n}")).unwrap();
    }
    assert!(state.add_peer(endpoint(), "one-more".to_owned()).is_err());
    state.merge(&membership(endpoint(), 1, Some("gossiped")), &local);
    assert_eq!(state.peers.len(), MAX_MESH_PEERS);
}

/// A record parked at the end could never be superseded.
#[test]
fn a_version_past_the_ceiling_is_not_adopted() {
    let (local, peer) = (endpoint(), endpoint());
    let mut state = MeshState::default();
    state.merge(&membership(peer, MAX_RECORD_VERSION, Some("stuck")), &local);
    assert!(state.peer_name(&peer).is_none());
    state.merge(&membership(peer, MAX_RECORD_VERSION - 1, Some("fine")), &local);
    assert_eq!(state.peer_name(&peer), Some("fine"));
}

#[test]
fn an_unknown_machine_is_told_apart_from_an_ambiguous_one() {
    let mut state = MeshState::default();
    let unknown: Result<EndpointId, MeshError> = state.resolve_peer("nobody");
    assert!(unknown.is_err());
    state.add_peer(endpoint(), "a".to_owned()).unwrap();
    state.add_peer(endpoint(), "b".to_owned()).unwrap();
    // Every id begins with nothing at all.
    assert!(state.resolve_peer("").is_err());
}

#[test]
fn names_are_checked_and_shown_safely() {
    assert_eq!(validate_name("laptop"), Ok(()));
    assert_eq!(validate_name(""), Err(NameError::Empty));
    assert_eq!(
        validate_name(&"n".repeat(MAX_NAME_LEN + 1)),
        Err(NameError::TooLong)
    );
    assert_eq!(validate_name("a\u{1b}[2K"), Err(NameError::Control));
    assert_eq!(sanitize("a\u{1b}[2Kb"), "a?[2Kb");
    assert!(sanitize_bounded(&"x".repeat(100_000)).len() < 100_000);
}

/// A merge that changes something is proposed, and one that changes nothing is
/// silent, which is what stops the echo.
#[test]
fn gossip_does_not_echo() {
    let (local, peer) = (endpoint(), endpoint());
    let mut store = MeshStore::new(MeshState::default());
    let heard = membership(peer, 1, Some("laptop"));

    let next = store.merge(&heard, &local).expect("it is news");
    store.commit(next);
    assert_eq!(store.state().peer_name(&peer), Some("laptop"));
    assert!(store.merge(&heard, &local).is_none());
}

#[test]
fn registering_twice_changes_nothing() {
    let mut store = MeshStore::new(MeshState::default());
    let peer = PairedPeer {
        endpoint: endpoint(),
        name: "laptop".to_owned(),
    };
    let next = store.add_paired(&peer).unwrap().expect("it is new");
    store.commit(next);
    assert!(store.add_paired(&peer).unwrap().is_none());
    let gone = store.remove(&peer.endpoint).unwrap().expect("it was there");
    store.commit(gone);
    assert!(store.remove(&peer.endpoint).is_err());
}
