//! The daemon: what it decides about peers, pairing, the clipboard and what
//! the command line asks.

use std::sync::Arc;

use yank::clip::event::{Rep, Selection};
use yank::clip::model::{Pause, Switch};
use yank::clip::state::Captured;
use yank::config::mesh::{Membership, MeshState};
use yank::config::{MachineKey, Settings};
use yank::daemon::backoff::{Backoff, SHARE_MIN, WHOLE};
use yank::daemon::clip::{
    BackendEvent, BackendState, ClipService, Order, Persisted, Reaction, Reconnect, ServiceError,
};
use yank::daemon::control::server::{failed, not_joined, not_spooled, Context, Step};
use yank::daemon::control::told::clean;
use yank::daemon::control::{ConnectionStatus, Request, Response};
use yank::daemon::hub::{Hub, Outgoing};
use yank::daemon::pairing::{Inbound, Pairing, Settlement, MAX_EXCHANGES, PAIR_TICKET_SECS};
use yank::daemon::peers::{
    frames, prefers_own_dial, pull_again, Answer, Fetcher, FrameOutcome, PeerLoop, PeerSet,
    PeerState, Pulled, ServeAction, ServeEvent, Serving, MAX_UNI_STREAMS,
};
use yank::daemon::store::MeshStore;
use yank::daemon::topics::Topics;
use yank::log::disk::{Op, Writer};
use yank::log::{EndpointId, EntryId, Hlc, Watermark, WireEntry};
use yank::files::walk::WalkError;
use yank::files::FileRef;
use yank::net::gossip::receive;
use yank::net::pair::{PairError, PairedPeer};
use yank::net::proto::{FetchFrame, Topic, UniMessage, MAX_FETCH_ENTRIES};
use yank::net::ticket::PairTicket;
use yank::time::{Span, Time};

fn endpoint() -> EndpointId {
    MachineKey::generate().endpoint_id()
}

fn at(secs: u64) -> Time {
    Time {
        nanos: (1_700_000_000 + secs as u128) * 1_000_000_000,
    }
}

fn service_with(settings: Settings) -> ClipService {
    let writer = Writer {
        dir: b"/state/history".to_vec(),
    };
    ClipService::open(
        endpoint(),
        Arc::new(settings),
        Persisted::default(),
        writer,
        Vec::new(),
        at(0),
    )
    .0
}

fn service() -> ClipService {
    service_with(Settings::default())
}

fn text(text: &str) -> Rep {
    Rep::new("text/plain", text.as_bytes().to_vec())
}

fn offered(orders: &[Order]) -> Vec<String> {
    orders
        .iter()
        .filter_map(|order| match order {
            Order::Offer(serves) => {
                Some(String::from_utf8_lossy(serves[0].bytes.as_slice()).into_owned())
            }
            _ => None,
        })
        .collect()
}

#[test]
fn delays_grow_up_to_a_ceiling() {
    let mut backoff = Backoff::new(Span::from_secs(1), Span::from_secs(5));
    let delays: Vec<u64> = (0..5)
        .map(|_| backoff.delay_of(WHOLE).as_secs())
        .collect();
    assert_eq!(delays, vec![1, 2, 4, 5, 5]);
    backoff.reset();
    assert_eq!(backoff.delay_of(WHOLE), Span::from_secs(1));
}

fn about(delay: Span, secs: u64) -> bool {
    let nanos = Span::from_secs(secs).nanos;
    nanos * 4 / 5 <= delay.nanos && delay.nanos <= nanos * 6 / 5
}

#[test]
fn delays_are_jittered_by_a_fifth() {
    let mut backoff = Backoff::new(Span::from_secs(1), Span::from_secs(8));
    for secs in [1, 2, 4, 8, 8] {
        assert!(about(backoff.next_delay(), secs));
    }
    backoff.reset();
    assert_eq!(backoff.delay_of(SHARE_MIN).nanos, 800_000_000);
    backoff.reset();
    let drawn: Vec<Span> = (0..16)
        .map(|_| {
            backoff.reset();
            backoff.next_delay()
        })
        .collect();
    assert!(drawn.iter().any(|delay| *delay != drawn[0]));
}

#[test]
fn a_compositor_is_looked_for_ever_less() {
    let mut reconnect = Reconnect::new(true, at(0));
    assert!(reconnect.is_due(at(0)));
    reconnect.missing(at(0));
    assert!(!reconnect.is_due(at(0)));
    assert!(reconnect.is_due(at(2)));
    reconnect.found();
    assert!(!reconnect.is_due(at(1000)));
    assert!(!Reconnect::new(false, at(0)).is_due(at(1000)));
}

#[test]
fn what_is_captured_follows_the_settings() {
    let clip = service_with(Settings {
        max_entry_size: 10,
        ignore_mime: vec!["image/png".to_owned()],
        ..Settings::default()
    });
    let policy = clip.policy();
    assert_eq!(policy.max_bytes, 10);
    assert_eq!(policy.ignore, vec!["image/png"]);
}

#[test]
fn a_copy_is_stored_announced_and_put_on_the_clipboard() {
    let mut clip = service();
    clip.connected();
    let (id, orders) = clip.copy(text("hello"), false, None, at(1)).unwrap();
    assert_eq!(id.seq, 1);
    assert_eq!(offered(&orders), vec!["hello"]);
    assert!(orders
        .iter()
        .any(|order| matches!(order, Order::Disk(Op::Store(_, _)))));
    assert!(orders
        .iter()
        .any(|order| matches!(order, Order::Persist(kept) if kept.checkpoint.next_seq == 2)));
    assert!(orders
        .iter()
        .any(|order| matches!(order, Order::Announce(have) if have.get(&id.origin) == 1)));
}

#[test]
fn a_secret_is_never_written_to_disk() {
    let mut clip = service();
    clip.connected();
    let (_, orders) = clip.copy(text("hunter2"), true, None, at(1)).unwrap();
    assert!(!orders
        .iter()
        .any(|order| matches!(order, Order::Disk(Op::Store(_, _)))));
}

#[test]
fn without_a_compositor_nothing_is_offered() {
    let mut clip = service();
    assert!(clip.can_write());
    assert!(matches!(clip.backend_state(), BackendState::Down(_)));
    let (_, orders) = clip.copy(text("hello"), false, None, at(1)).unwrap();
    assert!(offered(&orders).is_empty());
    clip.connected();
    assert!(matches!(clip.backend_state(), BackendState::Running));
    clip.mark_down("gone");
    assert!(matches!(clip.backend_state(), BackendState::Down(reason) if reason == "gone"));
}

#[test]
fn what_was_copied_can_be_pasted_in_the_types_it_has() {
    let mut clip = service();
    clip.copy(text("hello"), false, None, at(1)).unwrap();
    let (mime, others, bytes) = clip.paste(None, None).unwrap();
    assert_eq!(mime, "text/plain");
    assert_eq!(bytes, b"hello");
    assert!(others.is_empty());
    assert!(matches!(
        clip.paste(None, Some("image/png")),
        Err(ServiceError::NoSuchType { types, .. }) if types == vec!["text/plain"]
    ));
    assert!(clip.paste(Some("nope"), None).is_err());
}

#[test]
fn what_the_compositor_reports_is_recorded() {
    let mut clip = service();
    clip.connected();
    let captured = || Captured {
        selection: Selection::of(text("typed")),
        secret: false,
    };
    let Reaction::Record(found) = clip.on_backend_event(BackendEvent::Copied(captured())) else {
        panic!("it names no files");
    };
    clip.record(found, Vec::new(), at(1)).unwrap();
    assert_eq!(clip.history().0.len(), 1);
    assert!(matches!(
        clip.on_backend_event(BackendEvent::Lost("bye".to_owned())),
        Reaction::Reconnect
    ));
    assert!(matches!(clip.backend_state(), BackendState::Down(reason) if reason == "bye"));
}

#[test]
fn copied_files_are_spooled_before_they_are_recorded() {
    let mut clip = service();
    let files = || Selection::of_files(&[b"/home/x/y.iso".to_vec()]);
    let copied = BackendEvent::Copied(Captured {
        selection: files(),
        secret: false,
    });
    assert!(matches!(
        clip.on_backend_event(copied),
        Reaction::Snapshot { paths, .. } if paths == vec![b"/home/x/y.iso".to_vec()]
    ));
    // A secret never touches the disk, and spooling is a write to it.
    let secret = BackendEvent::Copied(Captured {
        selection: files(),
        secret: true,
    });
    assert!(matches!(
        clip.on_backend_event(secret),
        Reaction::Record(_)
    ));
    let mut off = service_with(Settings {
        files: false,
        ..Settings::default()
    });
    assert!(matches!(off.shares_files(), Err(ServiceError::FilesOff)));
    let copied = BackendEvent::Copied(Captured {
        selection: files(),
        secret: false,
    });
    assert!(matches!(off.on_backend_event(copied), Reaction::Record(_)));
}

#[test]
fn the_service_wakes_for_the_next_lifetime() {
    let mut clip = service();
    let idle = clip.next_wake(at(0), None);
    clip.copy(text("soon"), true, Some(Span::from_secs(5)), at(0))
        .unwrap();
    let sleep = clip.next_wake(at(0), None);
    assert!(sleep.nanos < idle.nanos);
    assert!(sleep.nanos <= Span::from_secs(6).nanos);
    let orders = clip.expire(at(10));
    assert!(!orders.is_empty());
    assert!(clip.history().0.is_empty());
}

#[test]
fn a_service_reopened_on_its_history_goes_on_from_there() {
    let identity = endpoint();
    let open = |persisted, entries| {
        let writer = Writer {
            dir: b"/state/history".to_vec(),
        };
        ClipService::open(
            identity,
            Arc::new(Settings::default()),
            persisted,
            writer,
            entries,
            at(2),
        )
    };
    let (mut clip, _) = open(Persisted::default(), Vec::new());
    let (_, orders) = clip.copy(text("kept"), false, None, at(1)).unwrap();
    let stored: Vec<WireEntry> = orders
        .iter()
        .filter_map(|order| match order {
            Order::Disk(Op::Store(_, bytes)) => WireEntry::decode(bytes),
            _ => None,
        })
        .collect();
    assert_eq!(stored.len(), 1);

    let (mut again, orders) = open(clip.persisted(), stored);
    assert!(offered(&orders).is_empty());
    assert_eq!(again.history().0.len(), 1);
    let (id, _) = again.copy(text("next"), false, None, at(3)).unwrap();
    assert_eq!(id.seq, 2);
}

#[test]
fn a_topic_finds_the_service_that_owns_it() {
    let mut one = Topics {
        clipboard: service(),
    };
    let mut two = Topics {
        clipboard: service(),
    };
    one.clipboard
        .copy(text("hello"), false, None, at(1))
        .unwrap();
    let wires = one.since(Topic::Clipboard, &two.have(Topic::Clipboard));
    assert_eq!(wires.len(), 1);
    two.accept(Topic::Clipboard, wires, at(2)).unwrap();
    assert!(!one
        .have(Topic::Clipboard)
        .outruns(&two.have(Topic::Clipboard)));

    let mut hub = Hub::new();
    let peer = endpoint();
    hub.connected(peer);
    while hub.pop(&peer).is_some() {}
    one.announce_all(&mut hub);
    assert!(matches!(hub.pop(&peer), Some(Outgoing::Summary(summary)) if summary.seq == 1));
}

#[test]
fn a_connecting_peer_catches_up() {
    let mut hub = Hub::new();
    let (first, second) = (endpoint(), endpoint());
    let mut have = Watermark::default();
    have.advance(first, 7);
    hub.announce(Topic::Clipboard, have);
    hub.publish_membership(MeshState::default().membership());

    assert!(!hub.connected(second));
    assert_eq!(hub.peer_count(), 1);
    assert!(matches!(hub.pop(&second), Some(Outgoing::Membership(_))));
    let Some(Outgoing::Summary(summary)) = hub.pop(&second) else {
        panic!("the announcement is replayed");
    };
    assert_eq!(summary.have.get(&first), 7);
    assert!(hub.pop(&second).is_none());
    assert!(hub.disconnected(&second));
    assert!(!hub.disconnected(&second));
}

#[test]
fn the_newest_announcement_wins() {
    let mut hub = Hub::new();
    let peer = endpoint();
    hub.connected(peer);
    while hub.pop(&peer).is_some() {}
    hub.announce(Topic::Clipboard, Watermark::default());
    hub.announce(Topic::Clipboard, Watermark::default());
    assert!(matches!(hub.pop(&peer), Some(Outgoing::Summary(summary)) if summary.seq == 2));
    assert!(hub.pop(&peer).is_none());
}

#[test]
fn a_pair_settles_on_one_connection() {
    let (a, b) = (endpoint(), endpoint());
    assert_ne!(prefers_own_dial(&a, &b), prefers_own_dial(&b, &a));
    let (low, high) = if prefers_own_dial(&a, &b) {
        (a, b)
    } else {
        (b, a)
    };
    let mut keeps = Serving::begin(low, high, true);
    assert_eq!(keeps.on(ServeEvent::Inbound), ServeAction::CloseNew);
    let mut yields = Serving::begin(high, low, true);
    assert_eq!(yields.on(ServeEvent::Inbound), ServeAction::Switch);
    assert_eq!(yields.on(ServeEvent::Lost), ServeAction::Stop);
}

#[test]
fn streams_past_the_cap_are_dropped() {
    let mut serving = Serving::begin(endpoint(), endpoint(), false);
    for _ in 0..MAX_UNI_STREAMS {
        assert_eq!(serving.on(ServeEvent::Uni), ServeAction::Read);
    }
    assert_eq!(serving.on(ServeEvent::Uni), ServeAction::Drop);
    assert_eq!(serving.on(ServeEvent::UniDone), ServeAction::Nothing);
    assert_eq!(serving.on(ServeEvent::Uni), ServeAction::Read);
}

#[test]
fn a_peer_that_keeps_dropping_is_dialed_ever_less() {
    let mut peer = PeerLoop::new();
    assert_eq!(peer.wait(), None);
    peer.not_reached();
    assert!(about(peer.wait().unwrap(), 1));
    peer.disconnected(Span::from_secs(2));
    assert!(about(peer.wait().unwrap(), 2));
    peer.disconnected(Span::from_secs(60));
    assert_eq!(peer.wait(), None);
    peer.not_reached();
    assert!(about(peer.wait().unwrap(), 1));
}

#[test]
fn watched_machines_are_told_by_name() {
    let mut set = PeerSet::new();
    let (one, stranger) = (endpoint(), endpoint());
    let mut state = MeshState::default();
    state.add_peer(one, "one".to_owned()).unwrap();
    set.sync(&state);
    let states = vec![
        (stranger, PeerState::Connecting),
        (one, PeerState::Backoff { until: at(9) }),
    ];
    let list = set.statuses(states, at(2));
    assert_eq!(list.len(), 1);
    assert_eq!((list[0].name.as_str(), list[0].endpoint), ("one", one));
    assert!(matches!(
        list[0].connection,
        ConnectionStatus::Backoff { retry_in_secs: 7 }
    ));
}

#[test]
fn a_connection_is_told_in_seconds() {
    assert!(matches!(
        PeerState::Connecting.status(at(0)),
        ConnectionStatus::Connecting
    ));
    assert!(matches!(
        PeerState::Backoff { until: at(9) }.status(at(2)),
        ConnectionStatus::Backoff { retry_in_secs: 7 }
    ));
    assert!(matches!(
        PeerState::Connected {
            route: None,
            since: at(2)
        }
        .status(at(12)),
        ConnectionStatus::Connected {
            route: None,
            since_secs: 10
        }
    ));
}

#[test]
fn peers_follow_the_mesh() {
    let mut set = PeerSet::new();
    let (one, two) = (endpoint(), endpoint());
    let mut state = MeshState::default();
    state.add_peer(one, "one".to_owned()).unwrap();
    state.add_peer(two, "two".to_owned()).unwrap();
    let changes = set.sync(&state);
    assert_eq!(changes.added.len(), 2);
    assert!(set.admits(&one));
    assert_eq!(set.name(&two), Some("two"));

    state.remove_peer(&one).unwrap();
    let changes = set.sync(&state);
    assert_eq!(changes.removed, vec![one]);
    assert!(changes.added.is_empty());
    assert!(!set.admits(&one));
}

#[test]
fn an_announcement_that_was_overtaken_is_discarded() {
    let mut fetcher = Fetcher::new();
    assert!(fetcher.hear(2));
    assert!(!fetcher.hear(1));
    assert!(!fetcher.hear(2));
    assert!(fetcher.hear(3));

    let origin = endpoint();
    let mut theirs = Watermark::default();
    theirs.advance(origin, 4);
    let ours = Watermark::default();
    assert!(pull_again(Pulled::Taken(1), &theirs, &ours));
    assert!(!pull_again(Pulled::Taken(0), &theirs, &ours));
    assert!(!pull_again(Pulled::Failed, &theirs, &ours));
    assert!(!pull_again(Pulled::Taken(1), &ours, &theirs));
}

fn wire(seq: u64) -> WireEntry {
    WireEntry {
        id: EntryId {
            origin: EndpointId::from_bytes(&[1; 32]),
            seq,
        },
        clock: Hlc {
            millis: seq,
            counter: 0,
        },
        payload: Vec::new(),
    }
}

#[test]
fn an_answer_is_whole_or_not_at_all() {
    let mut answer = Answer::new();
    let mut list = frames(vec![wire(1), wire(2)]);
    assert_eq!(list.len(), 3);
    let end = list.pop().unwrap();
    for frame in list {
        assert_eq!(answer.take(frame), FrameOutcome::More);
    }
    assert_eq!(answer.take(end), FrameOutcome::Complete);
    assert_eq!(answer.entries().len(), 2);

    let mut answer = Answer::new();
    for seq in 0..MAX_FETCH_ENTRIES as u64 {
        assert_eq!(
            answer.take(FetchFrame::Entry(wire(seq))),
            FrameOutcome::More
        );
    }
    assert_eq!(
        answer.take(FetchFrame::Entry(wire(0))),
        FrameOutcome::TooMany
    );
}

fn encoded_addr(id: EndpointId) -> Vec<u8> {
    let key = iroh::EndpointId::from_bytes(&id.as_bytes()).unwrap();
    postcard::to_stdvec(&iroh::EndpointAddr::from(key)).unwrap()
}

fn ticket() -> PairTicket {
    PairTicket::generate(&encoded_addr(endpoint())).unwrap()
}

#[test]
fn a_ticket_is_redeemed_once() {
    let mut pairing = Pairing::new();
    let ticket = ticket();
    pairing.issue(&ticket, "desktop".to_owned(), at(0));
    let mut mesh = MeshStore::new(MeshState::default());
    let peer = PairedPeer {
        name: "laptop".to_owned(),
        endpoint: endpoint(),
    };
    let Settlement::Save(state) = pairing.settle(&ticket, &peer, &mesh, at(1)) else {
        panic!("the ticket is live");
    };
    mesh.commit(state);
    assert_eq!(mesh.state().peer_name(&peer.endpoint), Some("laptop"));
    assert!(matches!(
        pairing.settle(&ticket, &peer, &mesh, at(1)),
        Settlement::Cancelled
    ));
}

#[test]
fn a_dead_ticket_registers_nothing() {
    let mut pairing = Pairing::new();
    let ticket = ticket();
    pairing.issue(&ticket, "desktop".to_owned(), at(0));
    assert!(!pairing.redeem(&ticket, at(PAIR_TICKET_SECS)));
    assert!(matches!(
        pairing.begin(at(PAIR_TICKET_SECS)),
        Inbound::NoTicket
    ));
    pairing.issue(&ticket, "desktop".to_owned(), at(0));
    assert!(pairing.revoke());
    assert!(!pairing.revoke());
    assert!(pairing.outstanding(at(0)).is_none());
}

#[test]
fn exchanges_are_bounded() {
    let mut pairing = Pairing::new();
    pairing.issue(&ticket(), "desktop".to_owned(), at(0));
    for _ in 0..MAX_EXCHANGES {
        assert!(matches!(
            pairing.begin(at(1)),
            Inbound::Exchange { local_name, .. } if local_name == "desktop"
        ));
    }
    assert!(matches!(pairing.begin(at(1)), Inbound::Busy));
    pairing.ended();
    assert!(matches!(pairing.begin(at(1)), Inbound::Exchange { .. }));
}

/// Turning a machine away takes as long as it takes to listen, so those count
/// too.
#[test]
fn machines_without_a_ticket_are_bounded_too() {
    let mut pairing = Pairing::new();
    for _ in 0..MAX_EXCHANGES {
        assert!(matches!(pairing.begin(at(1)), Inbound::NoTicket));
    }
    assert!(matches!(pairing.begin(at(1)), Inbound::Busy));
    pairing.ended();
    assert!(matches!(pairing.begin(at(1)), Inbound::NoTicket));
}

fn context() -> Context {
    Context {
        local: endpoint(),
        started: at(0),
        version: "0.1.0".to_owned(),
        topics: Topics {
            clipboard: service(),
        },
        mesh: MeshStore::new(MeshState::default()),
        pairing: Pairing::new(),
    }
}

fn ask(context: &mut Context, request: Request) -> Response {
    match context.answer(request, Vec::new(), at(5)) {
        Step::Reply { response, .. } => response,
        Step::Save { state, response } => {
            context.mesh.commit(state);
            response
        }
        Step::Keep { response, .. } => response,
        _ => panic!("expected an answer at once"),
    }
}

fn copy_request(text: &str) -> Request {
    Request::Copy {
        mime: "text/plain".to_owned(),
        bytes: text.as_bytes().to_vec(),
        secret: false,
        ttl_secs: None,
    }
}

#[test]
fn what_is_copied_over_the_socket_can_be_read_back() {
    let mut context = context();
    let Response::Wrote { label } = ask(&mut context, copy_request("hello")) else {
        panic!("it was copied");
    };
    let paste = |entry| Request::Paste { entry, mime: None };
    assert!(matches!(
        ask(&mut context, paste(None)),
        Response::Contents { mime, bytes, .. } if mime == "text/plain" && bytes == b"hello"
    ));
    assert!(matches!(
        ask(&mut context, paste(Some(label.clone()))),
        Response::Contents { bytes, .. } if bytes == b"hello"
    ));
    let Response::History(entries) = ask(&mut context, Request::History { limit: None }) else {
        panic!("expected the history");
    };
    assert_eq!(entries.len(), 1);
    assert_eq!(entries[0].label, label);
    assert!(entries[0].selected);
    let Response::Status(status) = ask(&mut context, Request::Status) else {
        panic!("expected the status");
    };
    assert_eq!(status.uptime_secs, 5);
    assert_eq!(status.clipboard.entries, 1);

    assert!(matches!(
        ask(&mut context, Request::Forget { entry: label }),
        Response::Wrote { .. }
    ));
    assert!(matches!(
        ask(&mut context, paste(None)),
        Response::Error(_)
    ));
}

#[test]
fn an_entry_is_picked_and_everything_cleared() {
    let mut context = context();
    let Response::Wrote { label } = ask(&mut context, copy_request("one")) else {
        panic!("it was copied");
    };
    ask(&mut context, copy_request("two"));
    assert!(matches!(
        ask(&mut context, Request::Pick { entry: label }),
        Response::Wrote { .. }
    ));
    assert!(matches!(
        ask(&mut context, Request::Paste { entry: None, mime: None }),
        Response::Contents { bytes, .. } if bytes == b"one"
    ));
    assert!(matches!(
        ask(&mut context, Request::Clear { history: true }),
        Response::Cleared
    ));
    assert!(matches!(
        ask(&mut context, Request::History { limit: Some(5) }),
        Response::History(entries) if entries.is_empty()
    ));
}

#[test]
fn pausing_is_answered_with_what_is_running() {
    let mut context = context();
    let off = Switch::Paused { until: None };
    let request = Request::SetPause {
        capture: Some(off),
        apply: None,
    };
    assert!(matches!(
        ask(&mut context, request),
        Response::Paused(pause) if pause == Pause { capture: off, apply: Switch::On }
    ));
}

/// A pause is written down before it is answered, so what has to be written
/// comes with the answer.
#[test]
fn a_pause_is_kept_before_it_is_answered() {
    let mut context = context();
    let off = Switch::Paused { until: None };
    let request = Request::SetPause {
        capture: None,
        apply: Some(off),
    };
    let Step::Keep { kept, response, .. } = context.answer(request, Vec::new(), at(5)) else {
        panic!("expected it to be kept");
    };
    let pause = Pause {
        capture: Switch::On,
        apply: off,
    };
    assert_eq!(kept.pause, pause);
    assert!(matches!(response, Response::Paused(now) if now == pause));
}

/// What is asked for is settled when it is asked: whatever is copied while the
/// files are on their way, the answer is about that entry.
#[test]
fn what_is_waited_for_is_what_was_asked_for() {
    let mut elsewhere = service();
    let paths = [b"/home/x/notes.txt".to_vec()];
    let list = vec![FileRef {
        path: "notes.txt".to_owned(),
        size: 5,
        hash: yank::files::Hash::of(b"hello"),
    }];
    let (id, _) = elsewhere.copy_files(&paths, list, None, at(1)).unwrap();

    let mut context = context();
    let entries = elsewhere.since(&Watermark::default());
    context.topics.clipboard.accept(entries, at(2)).unwrap();
    let request = Request::Files { entry: None };
    let Step::Await { id: asked, files } = context.answer(request, Vec::new(), at(3)) else {
        panic!("expected it to be waited for");
    };
    assert_eq!(asked, id);

    ask(&mut context, copy_request("copied meanwhile"));
    let answer = |context: &Context| match context.awaited(asked, &files) {
        Step::Reply { response: Response::Files { label, tree, files }, .. } => {
            (label, tree, files.len(), files[0].path.clone())
        }
        _ => panic!("expected the files"),
    };
    let named = "notes.txt".to_owned();
    assert_eq!(answer(&context), (id.label(), None, 1, named.clone()));

    let tree = b"/spool/tree".to_vec();
    context.topics.clipboard.materialized(id, tree, at(6));
    let place = Some("/spool/tree".to_owned());
    assert_eq!(answer(&context), (id.label(), place, 1, named));
}

#[test]
fn pairing_goes_through_a_ticket() {
    let mut context = context();
    let addr = encoded_addr(context.local);
    let request = Request::PairHost {
        name: "desktop".to_owned(),
    };
    let Step::Host { name } = context.answer(request, Vec::new(), at(5)) else {
        panic!("a relay is waited for");
    };
    let Step::Reply {
        response: Response::PairTicket(text),
        ..
    } = context.hosted(&addr, name, at(6))
    else {
        panic!("the ticket is issued");
    };
    assert!(PairTicket::parse(&text).is_ok());
    assert!(matches!(
        context.answer(
            Request::PairJoin {
                ticket: "mangled".to_owned(),
                name: "desktop".to_owned()
            },
            Vec::new(),
            at(5)
        ),
        Step::Reply {
            response: Response::Error(_),
            ..
        }
    ));
    let peer = PairedPeer {
        name: "laptop".to_owned(),
        endpoint: endpoint(),
    };
    let id = peer.endpoint;
    let Step::Save { state, response } = context.joined(peer) else {
        panic!("it is new");
    };
    context.mesh.commit(state);
    assert!(matches!(response, Response::Paired { name, .. } if name == "laptop"));
    let remove = Request::RemovePeer {
        peer: "laptop".to_owned(),
    };
    assert!(matches!(
        ask(&mut context, remove),
        Response::PeerRemoved(gone) if gone == id
    ));
    let again = Request::RemovePeer {
        peer: "laptop".to_owned(),
    };
    assert!(matches!(ask(&mut context, again), Response::Error(_)));
}

#[test]
fn what_fails_is_safe_to_print() {
    assert_eq!(clean("a\u{1b}[2K"), "a?[2K");
    let mut context = context();
    let request = Request::Pick {
        entry: "no\u{7}pe".to_owned(),
    };
    assert!(matches!(
        ask(&mut context, request),
        Response::Error(message) if !message.contains('\u{7}')
    ));
}

#[test]
fn gossip_is_kept_for_whoever_connects() {
    let mut hub = Hub::new();
    let peer = endpoint();
    let mut state = MeshState::default();
    state.add_peer(peer, "laptop".to_owned()).unwrap();
    let membership: Membership = state.membership();
    hub.publish_membership(membership);
    hub.connected(peer);
    assert!(matches!(
        hub.pop(&peer),
        Some(Outgoing::Membership(sent)) if sent.peers.len() == 1
    ));
}

fn told(step: Step) -> String {
    let Step::Reply {
        response: Response::Error(message),
        orders,
    } = step
    else {
        panic!("it is a failure");
    };
    assert!(orders.is_empty());

    message
}

#[test]
fn what_is_not_shared_is_told_why() {
    let room = WalkError::NoRoom {
        wanted: 3,
        budget: 100,
    };
    assert_eq!(
        told(not_spooled(room, "")),
        "the spool has no room for another 3 B under its 100 B budget in config.toml"
    );
    assert_eq!(
        told(not_spooled(WalkError::Unnameable, "/a\u{7}b")),
        "/a?b has a name that cannot be shared"
    );
    assert_eq!(
        told(not_spooled(WalkError::Empty, "")),
        "the selection names no file"
    );
    assert_eq!(
        told(not_spooled(WalkError::TooManyFiles, "")),
        "the selection has too many files"
    );
    assert_eq!(
        told(not_spooled(WalkError::TooLarge, "")),
        "the selection is too large to share"
    );
    assert_eq!(
        told(not_spooled(WalkError::SameName, "")),
        "two of the files would land under the same name"
    );
}

#[test]
fn a_pairing_that_failed_is_told_why() {
    assert_eq!(
        told(not_joined(&PairError::Itself, "")),
        "cannot pair a machine with itself"
    );
    assert_eq!(
        told(not_joined(&PairError::Refused("no".to_owned()), "")),
        "pairing refused: no"
    );
    assert_eq!(
        told(not_joined(&PairError::Unexpected, "Done")),
        "unexpected message from the other machine: Done"
    );
    assert_eq!(
        told(not_joined(&PairError::Dropped, "timed out")),
        "the connection dropped before pairing completed (timed out); \
         check `yank status` on the other machine before trying again"
    );
    assert_eq!(told(failed("a\u{1b}b")), "a?b");
}

#[test]
fn what_is_popped_is_what_a_peer_receives() {
    let mut hub = Hub::new();
    let peer = endpoint();
    hub.connected(peer);
    assert!(matches!(
        hub.pop(&peer),
        Some(Outgoing::Membership(sent)) if sent.peers.len() == 0
    ));
    let mut have = Watermark::default();
    have.advance(peer, 7);
    assert!(hub.can_announce());
    hub.announce(Topic::Clipboard, have);
    let next = hub.pop(&peer).unwrap();
    let Ok(UniMessage::Summary(summary)) = receive(&next.message().encode()) else {
        panic!("it is an announcement");
    };
    assert_eq!(summary.seq, 1);
    assert_eq!(summary.have.get(&peer), 7);
}
