//! What machines say to each other.

use yank::config::mesh::{Membership, MeshState, Peer, PeerStatus, MAX_MESH_PEERS};
use yank::config::name::MAX_NAME_LEN;
use yank::config::MachineKey;
use yank::daemon::{alpns, route, Route};
use yank::log::{EndpointId, Watermark};
use yank::net::endpoint::EndpointOptions;
use yank::net::pair::{
    answered, closed, conclude, greet, hello, resolve_peer_name, Greeting, Joining, Message,
    Opening, Outcome, PairError, PairedPeer, Reply, PAIRED_REASON,
};
use yank::net::gossip::{receive, Dropped, GossipError};
use yank::net::proto::{topics, MessageError, Summary, Topic, UniMessage, MAX_UNI_SIZE};
use yank::net::ticket::{PairSecret, PairTicket, TicketError};
use yank::net::wire::{announced, check_rest, frame, WireError};
use yank::ordmap::OrdMap;

fn endpoint() -> EndpointId {
    MachineKey::generate().endpoint_id()
}

/// The address of a machine, encoded.
fn addr(id: EndpointId) -> Vec<u8> {
    let key = iroh::EndpointId::from_bytes(&id.as_bytes()).unwrap();
    postcard::to_stdvec(&iroh::EndpointAddr::from(key)).unwrap()
}

fn ticket_of(id: EndpointId) -> PairTicket {
    PairTicket::generate(&addr(id)).unwrap()
}

fn ticket() -> PairTicket {
    ticket_of(endpoint())
}

#[test]
fn tickets_round_trip() {
    let ticket = ticket();
    let parsed = PairTicket::parse(&ticket.text()).ok().unwrap();

    assert_eq!(parsed.addr, ticket.addr);
    assert_eq!(parsed.host, ticket.host);
    assert!(ticket.matches(&parsed));
}

#[test]
fn a_ticket_survives_blanks_around_it_and_capital_letters() {
    let ticket = ticket();
    let text = ticket.text();
    let (prefix, rest) = text.split_at(10);
    let shouted = format!("  {prefix}{}\n", rest.to_uppercase());
    let parsed = PairTicket::parse(&shouted).ok().unwrap();
    assert!(ticket.matches(&parsed));
}

#[test]
fn tickets_reject_garbage() {
    assert!(PairTicket::parse("yank-pair-notbase32!").is_err());
    assert!(PairTicket::parse("some-other-ticket").is_err());

    // Trailing data must be refused, not quietly ignored.
    let padded = format!("{}aaaaaaaa", ticket().text());
    assert!(PairTicket::parse(&padded).is_err());
}

#[test]
fn what_is_no_ticket_is_told_apart_from_a_broken_one() {
    assert!(matches!(
        PairTicket::parse("some-other-ticket"),
        Err(TicketError::NotATicket)
    ));
    assert!(matches!(
        PairTicket::parse("yank-pair-notbase32!"),
        Err(TicketError::Invalid)
    ));
    assert!(PairTicket::generate(b"").is_none());
}

#[test]
fn a_secret_only_matches_itself() {
    let secret = PairSecret::generate();
    assert!(secret.verify(&secret.copy()));
    assert!(!secret.verify(&PairSecret::generate()));
}

#[test]
fn messages_round_trip() {
    let bytes = frame(b"hello", 256).unwrap();
    assert_eq!(bytes.len(), 9);
    let prefix = [bytes[0], bytes[1], bytes[2], bytes[3]];
    assert_eq!(announced(prefix, 256), Ok(5));
    assert_eq!(&bytes[4..], b"hello");
    assert_eq!(check_rest(0), Ok(()));
    assert_eq!(check_rest(1), Err(WireError::TrailingBytes));
}

#[test]
fn sizes_are_bounded_on_both_sides() {
    assert_eq!(frame(&[0; 300], 256), Err(WireError::TooLarge));
    // An oversized length prefix is refused before allocating for it.
    assert_eq!(
        announced(u32::MAX.to_le_bytes(), 256),
        Err(WireError::TooLarge)
    );
}

#[test]
fn every_protocol_served_is_routed() {
    assert_eq!(alpns(), vec!["yank/sync/2", "yank/pair/0"]);
    assert_eq!(route(b"yank/sync/2"), Route::Peer);
    assert_eq!(route(b"yank/pair/0"), Route::Pairing);
    assert_eq!(route(b"yank/sync/1"), Route::Refused);
    assert_eq!(route(b""), Route::Refused);
}

#[test]
fn relays_are_used_unless_the_mesh_is_hermetic() {
    assert!(EndpointOptions::default().uses_relays());
    assert!(!EndpointOptions::LocalTest.uses_relays());
    assert_eq!(topics(), vec![Topic::Clipboard]);
}

fn membership(n: usize) -> Membership {
    let mut peers = OrdMap::new();
    for i in 0..n {
        peers.insert(
            endpoint(),
            Peer {
                version: 1,
                status: PeerStatus::Alive {
                    name: format!("machine-{i}"),
                },
            },
        );
    }
    Membership { peers }
}

#[test]
fn a_message_over_the_cap_is_refused() {
    assert!(UniMessage::Membership(membership(MAX_MESH_PEERS))
        .validate()
        .is_ok());
    assert!(UniMessage::Membership(membership(MAX_MESH_PEERS + 1))
        .validate()
        .is_err());
    let summary = |n: usize| {
        let mut have = Watermark::default();
        for _ in 0..n {
            have.advance(endpoint(), 1);
        }
        UniMessage::Summary(Summary {
            topic: Topic::Clipboard,
            seq: 1,
            have,
        })
    };
    assert!(summary(1).validate().is_ok());
    assert!(summary(10_000).validate().is_err());
}

/// The whole exchange, as it goes when nothing goes wrong.
#[test]
fn a_pairing_is_agreed_by_both() {
    let (host, joiner) = (endpoint(), endpoint());
    let ticket = ticket_of(host);
    let state = MeshState::default();

    let opening = hello(&ticket, joiner, "laptop").ok().unwrap();
    let greeting = greet(Opening::Said(opening), &ticket, joiner, &state);
    let welcome = greeting.message("desktop").unwrap();
    let Greeting::Welcome(peer) = greeting else {
        panic!("the ticket is right");
    };
    assert_eq!((peer.name.as_str(), peer.endpoint), ("laptop", joiner));

    let Joining::Confirm(found) = answered(welcome, host, &state) else {
        panic!("the host is welcome too");
    };
    assert_eq!((found.name.as_str(), found.endpoint), ("desktop", host));
    let outcome = conclude(peer, Reply::Said(Message::Done)).unwrap();
    assert!(matches!(outcome, Outcome::Paired(peer) if peer.endpoint == joiner));
    let done = closed(found, Some((0, PAIRED_REASON.as_bytes().to_vec()))).unwrap();
    assert_eq!(done.endpoint, host);
}

#[test]
fn a_wrong_secret_is_turned_away() {
    let (host, joiner) = (endpoint(), endpoint());
    let state = MeshState::default();
    let opening = hello(&ticket_of(host), joiner, "laptop").ok().unwrap();
    let greeting = greet(Opening::Said(opening), &ticket_of(host), joiner, &state);
    assert!(matches!(greeting, Greeting::TurnAway));
    assert!(matches!(
        greeting.message("desktop"),
        Some(Message::Reject { .. })
    ));
    assert!(matches!(
        greet(Opening::Unreadable, &ticket_of(host), joiner, &state),
        Greeting::TurnAway
    ));
    assert!(matches!(
        greet(Opening::NoStream, &ticket_of(host), joiner, &state),
        Greeting::Dismiss
    ));
    assert!(matches!(
        greet(Opening::TimedOut, &ticket_of(host), joiner, &state),
        Greeting::Close
    ));
}

#[test]
fn a_machine_cannot_be_paired_with_itself() {
    let host = endpoint();
    assert!(matches!(
        hello(&ticket_of(host), host, "laptop"),
        Err(PairError::Itself)
    ));
}

#[test]
fn a_pairing_that_breaks_off_is_not_one() {
    let peer = || PairedPeer {
        name: "laptop".to_owned(),
        endpoint: endpoint(),
    };
    assert!(matches!(
        conclude(peer(), Reply::Lost),
        Ok(Outcome::Dismissed)
    ));
    assert!(matches!(
        conclude(peer(), Reply::NotSent),
        Ok(Outcome::Dismissed)
    ));
    let refused = Message::Reject {
        reason: "no\u{1b}[2K".to_owned(),
    };
    assert!(matches!(
        conclude(peer(), Reply::Said(refused)),
        Err(PairError::Refused(reason)) if reason == "no?[2K"
    ));
    let odd = Message::Welcome {
        name: String::new(),
    };
    assert!(matches!(
        conclude(peer(), Reply::Said(odd)),
        Err(PairError::Unexpected)
    ));
    assert!(matches!(closed(peer(), None), Err(PairError::Dropped)));
    assert!(closed(peer(), Some((1, PAIRED_REASON.as_bytes().to_vec()))).is_err());
    assert!(matches!(
        answered(Message::Done, endpoint(), &MeshState::default()),
        Joining::Unexpected
    ));
}

#[test]
fn a_known_machine_keeps_the_name_it_has() {
    let peer = endpoint();
    let mut state = MeshState::default();
    state.add_peer(peer, "desk".to_owned()).unwrap();
    assert_eq!(
        resolve_peer_name("other".to_owned(), &peer, &state).unwrap(),
        "desk"
    );
    assert_eq!(
        resolve_peer_name("new".to_owned(), &endpoint(), &state).unwrap(),
        "new"
    );
    assert!(resolve_peer_name(String::new(), &endpoint(), &state).is_err());
}

/// A machine holding the largest state we accept must still be able to gossip
/// it. If it could not, a mesh at the cap would go silent, which is a far worse
/// failure than refusing one machine more.
#[test]
fn a_full_membership_fits_on_the_wire() {
    let mut peers = OrdMap::new();
    for _ in 0..MAX_MESH_PEERS {
        peers.insert(
            endpoint(),
            Peer {
                version: u64::MAX,
                status: PeerStatus::Alive {
                    name: "n".repeat(MAX_NAME_LEN),
                },
            },
        );
    }

    let encoded = UniMessage::Membership(Membership { peers }).encode();
    assert!(
        encoded.len() <= MAX_UNI_SIZE as usize,
        "a full membership is {} bytes, over the {MAX_UNI_SIZE} byte cap",
        encoded.len(),
    );
}

/// Same for the announcement: one origin per machine in the mesh.
#[test]
fn a_full_summary_fits_on_the_wire() {
    let mut have = Watermark::default();
    for _ in 0..MAX_MESH_PEERS {
        have.advance(endpoint(), u64::MAX);
    }

    let encoded = UniMessage::Summary(Summary {
        topic: Topic::Clipboard,
        seq: u64::MAX,
        have,
    })
    .encode();
    assert!(
        encoded.len() <= MAX_UNI_SIZE as usize,
        "a full summary is {} bytes, over the {MAX_UNI_SIZE} byte cap",
        encoded.len(),
    );
}

#[test]
fn gossip_round_trips() {
    let (alive, gone) = (endpoint(), endpoint());
    let mut peers = OrdMap::new();
    peers.insert(
        alive,
        Peer {
            version: 3,
            status: PeerStatus::Alive {
                name: "desk".to_owned(),
            },
        },
    );
    peers.insert(
        gone,
        Peer {
            version: 300,
            status: PeerStatus::Removed,
        },
    );
    let bytes = UniMessage::Membership(Membership { peers }).encode();
    let Ok(UniMessage::Membership(back)) = UniMessage::decode(&bytes) else {
        panic!("expected a membership");
    };
    assert_eq!(back.peers.len(), 2);
    assert_eq!(back.peers.get(&alive).unwrap().name(), Some("desk"));
    assert_eq!(back.peers.get(&gone).unwrap().version, 300);
    assert!(back.peers.get(&gone).unwrap().name().is_none());

    let mut have = Watermark::default();
    have.advance(alive, 1000);
    let summary = UniMessage::Summary(Summary {
        topic: Topic::Clipboard,
        seq: 7,
        have,
    });
    let bytes = summary.encode();
    let Ok(UniMessage::Summary(back)) = UniMessage::decode(&bytes) else {
        panic!("expected a summary");
    };
    assert_eq!((back.seq, back.have.get(&alive)), (7, 1000));

    let mut padded = bytes.clone();
    padded.push(0);
    assert!(matches!(
        UniMessage::decode(&padded),
        Err(GossipError::TrailingBytes)
    ));
    assert!(matches!(
        UniMessage::decode(&[9]),
        Err(GossipError::Unreadable)
    ));
    assert!(UniMessage::decode(&[]).is_err());
}

#[test]
fn a_message_that_says_too_much_is_dropped() {
    let fine = UniMessage::Membership(membership(3)).encode();
    assert!(receive(&fine).is_ok());
    let flood = UniMessage::Membership(membership(MAX_MESH_PEERS + 1)).encode();
    assert!(matches!(
        receive(&flood),
        Err(Dropped::TooBig(MessageError::MembershipTooLarge))
    ));
    assert!(matches!(
        receive(b"\xff"),
        Err(Dropped::Bad(GossipError::Unreadable))
    ));
}

/// What a removed machine and an announcement look like, byte for byte.
#[test]
fn gossip_is_spelled_like_this() {
    let key = endpoint();
    let mut peers = OrdMap::new();
    peers.insert(
        key,
        Peer {
            version: 2,
            status: PeerStatus::Removed,
        },
    );
    let bytes = UniMessage::Membership(Membership { peers }).encode();
    let mut expected = vec![0, 1];
    expected.extend_from_slice(&key.as_bytes());
    expected.extend_from_slice(&[2, 1]);
    assert_eq!(bytes, expected);

    let mut have = Watermark::default();
    have.advance(key, 5);
    let bytes = UniMessage::Summary(Summary {
        topic: Topic::Clipboard,
        seq: 9,
        have,
    })
    .encode();
    let mut expected = vec![1, 0, 9, 1];
    expected.extend_from_slice(&key.as_bytes());
    expected.push(5);
    assert_eq!(bytes, expected);
}
