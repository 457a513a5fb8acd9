//! The log every machine keeps of what every machine wrote.

use yank::config::MachineKey;
use yank::log::clock::{wall_millis, Clock, MAX_DRIFT_MILLIS};
use yank::log::disk::{
    is_entry, load, prepare, HistoryFile, Marker, Op, Preparation, Writer, VERSION,
};
use yank::log::store::{Change, Checkpoint, Limits, Log, LogError};
use yank::log::{payload, EndpointId, Entry, EntryId, Hlc, Watermark, WireEntry};

fn endpoint() -> EndpointId {
    MachineKey::generate().endpoint_id()
}

#[test]
fn readings_never_repeat_or_go_backwards() {
    let mut clock = Clock::default();
    let readings: Vec<Hlc> = (0..1000).map(|_| clock.tick()).collect();

    assert!(readings.windows(2).all(|pair| pair[0] < pair[1]));
}

#[test]
fn a_resumed_clock_outranks_what_it_issued() {
    let mut clock = Clock::default();
    let issued = clock.tick();

    let mut resumed = Clock::resume(issued);
    assert!(resumed.tick() > issued);
}

#[test]
fn observing_a_peer_orders_us_after_it() {
    let mut clock = Clock::default();
    let ahead = Hlc {
        millis: wall_millis() + 1000,
        counter: 7,
    };

    clock.observe(ahead);
    assert!(clock.tick() > ahead);
}

#[test]
fn a_peer_clock_years_ahead_does_not_drag_ours() {
    let mut clock = Clock::default();
    let broken = Hlc {
        millis: wall_millis() + 24 * 365 * 3_600_000,
        counter: 0,
    };

    clock.observe(broken);
    assert!(clock.tick().millis <= wall_millis() + MAX_DRIFT_MILLIS + 1);
}

#[test]
fn readings_go_forward() {
    let full = Hlc {
        millis: 1000,
        counter: u16::MAX,
    };
    let next = Hlc {
        millis: 1001,
        counter: 0,
    };
    // The wall clock stands still, or jumped backwards.
    assert_eq!(Clock::resume(full).tick_at(1000), next);
    assert_eq!(Clock::resume(full).tick_at(3), next);
    assert_eq!(
        Clock::resume(full).tick_at(2000),
        Hlc {
            millis: 2000,
            counter: 0,
        }
    );
    // The last reading there is has none after it.
    let last = Hlc {
        millis: u64::MAX,
        counter: u16::MAX,
    };
    assert_eq!(Clock::resume(last).tick_at(0), last);
}

#[test]
fn a_wrong_clock_is_contained() {
    let wrong = Hlc {
        millis: 5000 + MAX_DRIFT_MILLIS + 1,
        counter: 3,
    };
    let behind = Hlc {
        millis: 4000,
        counter: 7,
    };
    let mut clock = Clock::resume(behind);
    clock.observe_at(wrong, 5000);
    assert_eq!(
        clock.last(),
        Hlc {
            millis: 5000,
            counter: 0,
        }
    );

    let ahead = Hlc {
        millis: 6000,
        counter: 7,
    };
    let mut clock = Clock::resume(ahead);
    clock.observe_at(wrong, 5000);
    assert_eq!(clock.last(), ahead);

    // As far ahead as the drift allows is believed.
    let believed = Hlc {
        millis: 5000 + MAX_DRIFT_MILLIS,
        counter: 3,
    };
    let mut clock = Clock::resume(behind);
    clock.observe_at(believed, 5000);
    assert_eq!(
        clock.last(),
        Hlc {
            counter: 4,
            ..believed
        }
    );
}

#[test]
fn a_reading_is_a_time() {
    let reading = Hlc {
        millis: 1_700_000_000_123,
        counter: 9,
    };
    assert_eq!(
        reading.as_system_time().nanos,
        1_700_000_000_123_000_000
    );
}

#[test]
fn watermarks_only_move_forward() {
    let origin = endpoint();
    let mut mark = Watermark::default();

    assert!(mark.advance(origin, 5));
    assert!(!mark.advance(origin, 3));
    assert_eq!(mark.get(&origin), 5);
}

#[test]
fn outruns_compares_every_origin() {
    let (a, b) = (endpoint(), endpoint());
    let mut ours = Watermark::default();
    ours.advance(a, 4);
    let mut theirs = Watermark::default();
    theirs.advance(a, 4);

    assert!(!ours.outruns(&theirs));

    theirs.advance(b, 1);
    assert!(theirs.outruns(&ours));
    assert!(!ours.outruns(&theirs));
}

#[test]
fn labels_are_short_and_stable() {
    let id = EntryId {
        origin: endpoint(),
        seq: 12,
    };
    assert_eq!(id.label(), id.label());
    assert!(id.label().ends_with("-12"));
    assert_eq!(id.label().len(), 9);
}

#[test]
fn a_file_is_named_by_the_whole_of_its_entry() {
    let id = EntryId {
        origin: EndpointId::from_bytes(&[0; 32]),
        seq: 3,
    };
    assert_eq!(id.label(), "aaaaaa-3");
    assert_eq!(
        id.file_name(),
        format!("{}-00000000000000000003.entry", "a".repeat(52))
    );
}

fn limits() -> Limits {
    Limits {
        entries: 3,
        bytes: 1024,
        payload: 64,
    }
}

fn log() -> Log {
    Log::new(endpoint(), limits(), Checkpoint::default())
}

fn added(changes: &[Change]) -> Vec<EntryId> {
    changes
        .iter()
        .filter_map(|change| match change {
            Change::Added(entry) => Some(entry.id),
            Change::Dropped(_) => None,
        })
        .collect()
}

fn dropped(changes: &[Change]) -> Vec<EntryId> {
    changes
        .iter()
        .filter_map(|change| match change {
            Change::Dropped(id) => Some(*id),
            Change::Added(_) => None,
        })
        .collect()
}

#[test]
fn local_entries_are_numbered_from_one() {
    let mut log = log();
    let (first, _) = log.append(payload(b"a".to_vec()), true).unwrap();
    let (second, _) = log.append(payload(b"b".to_vec()), true).unwrap();

    assert_eq!(first.seq, 1);
    assert_eq!(second.seq, 2);
    assert_eq!(log.have().get(&log.origin()), 2);
}

#[test]
fn a_peer_cannot_write_under_our_identity() {
    let mut log = log();
    let forged = WireEntry {
        id: EntryId {
            origin: log.origin(),
            seq: 1,
        },
        clock: Hlc::default(),
        payload: b"forged".to_vec(),
    };

    assert_eq!(log.validate(&forged), Err(LogError::OwnIdentity));
    assert!(log.accept(forged, true).is_err());
}

#[test]
fn an_entry_without_a_sequence_is_refused() {
    let mut log = log();
    let unnumbered = WireEntry {
        id: EntryId {
            origin: endpoint(),
            seq: 0,
        },
        clock: Hlc::default(),
        payload: Vec::new(),
    };
    assert!(matches!(
        log.accept(unnumbered, true),
        Err(LogError::NoSequence)
    ));
}

#[test]
fn entries_are_taken_once() {
    let mut log = log();
    let peer = endpoint();
    let wire = |seq| WireEntry {
        id: EntryId { origin: peer, seq },
        clock: Hlc {
            millis: seq,
            counter: 0,
        },
        payload: vec![0; 8],
    };

    assert_eq!(added(&log.accept(wire(1), true).unwrap()).len(), 1);
    assert!(log.accept(wire(1), true).unwrap().is_empty());

    // A gap is skipped for good: the watermark tracks what we saw, not a
    // contiguous prefix.
    assert_eq!(added(&log.accept(wire(5), true).unwrap()).len(), 1);
    assert!(log.accept(wire(3), true).unwrap().is_empty());
    assert_eq!(log.have().get(&peer), 5);
}

#[test]
fn oversized_payloads_are_refused() {
    let mut log = log();
    assert!(matches!(
        log.append(payload(vec![0; 65]), true),
        Err(LogError::TooLarge(64))
    ));

    assert!(log
        .accept(
            WireEntry {
                id: EntryId {
                    origin: endpoint(),
                    seq: 1
                },
                clock: Hlc::default(),
                payload: vec![0; 65],
            },
            true,
        )
        .is_err());
}

#[test]
fn the_oldest_entries_go_first() {
    let mut log = log();
    let mut ids = Vec::new();
    for _ in 0..4 {
        let (id, changes) = log.append(payload(b"x".to_vec()), true).unwrap();
        ids.push((id, changes));
    }

    let (_, last) = ids.pop().unwrap();
    assert_eq!(dropped(&last), vec![ids[0].0]);
    assert_eq!(log.newest_first().len(), 3);
}

#[test]
fn an_entry_evicted_on_arrival_never_landed() {
    let mut log = log();
    for _ in 0..3 {
        log.append(payload(b"x".to_vec()), true).unwrap();
    }

    // Older than everything held, into a full log.
    let stale = WireEntry {
        id: EntryId {
            origin: endpoint(),
            seq: 1,
        },
        clock: Hlc::default(),
        payload: b"stale".to_vec(),
    };
    let changes = log.accept(stale, true).unwrap();

    assert!(changes.is_empty());
    assert_eq!(log.newest_first().len(), 3);
}

#[test]
fn the_newest_that_fit_are_kept() {
    let limits = Limits {
        entries: 3,
        bytes: 10,
        payload: 64,
    };
    let mut log = Log::new(endpoint(), limits, Checkpoint::default());
    let mut ids = Vec::new();
    for bytes in [4, 3, 3] {
        ids.push(log.append(payload(vec![0; bytes]), true).unwrap().0);
    }

    // Two have to go for five more bytes, the oldest first.
    let (id, changes) = log.append(payload(vec![0; 5]), true).unwrap();
    assert_eq!(added(&changes), vec![id]);
    assert_eq!(dropped(&changes), vec![ids[0], ids[1]]);
    let held: Vec<EntryId> = log.newest_first().iter().map(|entry| entry.id).collect();
    assert_eq!(held, vec![id, ids[2]]);
}

#[test]
fn a_fetch_serves_only_what_the_peer_lacks() {
    let mut log = log();
    let (first, _) = log.append(payload(b"a".to_vec()), true).unwrap();
    let (second, _) = log.append(payload(b"b".to_vec()), true).unwrap();

    let mut want = Watermark::default();
    assert_eq!(log.since(&want).len(), 2);

    want.advance(first.origin, first.seq);
    let missing: Vec<EntryId> = log.since(&want).iter().map(|entry| entry.id).collect();
    assert_eq!(missing, vec![second]);
}

#[test]
fn restoring_from_disk_ignores_the_order_files_come_back_in() {
    let origin = endpoint();
    let mut log = Log::new(origin, limits(), Checkpoint::default());
    for seq in [2, 1] {
        log.restore(WireEntry {
            id: EntryId { origin, seq },
            clock: Hlc {
                millis: seq,
                counter: 0,
            },
            payload: b"x".to_vec(),
        });
    }

    assert_eq!(log.newest_first().len(), 2);
    // The next local entry must not reuse a name already on disk.
    let (next, _) = log.append(payload(b"y".to_vec()), true).unwrap();
    assert_eq!(next.seq, 3);
}

#[test]
fn what_is_removed_is_gone() {
    let mut log = log();
    let (id, _) = log.append(payload(b"a".to_vec()), true).unwrap();
    assert_eq!(log.get(id).unwrap().payload.as_slice(), b"a");
    assert!(matches!(log.remove(id), Some(Change::Dropped(gone)) if gone == id));
    assert!(log.get(id).is_none());
    assert!(log.remove(id).is_none());
}

fn entry(durable: bool) -> Entry {
    Entry {
        id: EntryId {
            origin: endpoint(),
            seq: 3,
        },
        clock: Hlc {
            millis: 42,
            counter: 1,
        },
        payload: payload(b"hello".to_vec()),
        durable,
    }
}

#[test]
fn entries_survive_a_round_trip() {
    let writer = Writer {
        dir: b"/state/history".to_vec(),
    };
    let entry = entry(true);

    let Some(Op::Store(path, bytes)) = writer.store(&entry) else {
        panic!("a durable entry is stored");
    };
    let loaded = WireEntry::decode(&bytes).unwrap();
    assert_eq!(loaded.id, entry.id);
    assert_eq!(loaded.clock, entry.clock);
    assert_eq!(loaded.payload, b"hello");

    let Op::Forget(gone) = writer.forget(entry.id) else {
        panic!("forgetting removes a file");
    };
    assert_eq!(gone, path);
}

#[test]
fn a_secret_entry_never_reaches_the_disk() {
    let writer = Writer {
        dir: b"/state/history".to_vec(),
    };
    assert!(writer.store(&entry(false)).is_none());
}

#[test]
fn a_truncated_file_is_discarded_not_fatal() {
    let kept = WireEntry::from(&entry(true));
    let files = vec![
        HistoryFile {
            name: b"broken.entry".to_vec(),
            bytes: Some(b"\xff\xff\xff".to_vec()),
        },
        HistoryFile {
            name: b"meta.json".to_vec(),
            bytes: Some(b"{}".to_vec()),
        },
        HistoryFile {
            name: b"kept.entry".to_vec(),
            bytes: Some(kept.encode()),
        },
        HistoryFile {
            name: b"unreadable.entry".to_vec(),
            bytes: None,
        },
    ];

    let (entries, discarded) = load(&files);
    assert_eq!(entries.len(), 1);
    assert_eq!(entries[0].id, kept.id);
    assert_eq!(discarded, vec![0, 3]);
}

#[test]
fn a_history_without_a_schema_marker_is_started_clean() {
    assert_eq!(prepare(Marker::Missing), Preparation::StartClean);
    assert_eq!(prepare(Marker::Version(VERSION)), Preparation::Keep);
    assert_eq!(
        prepare(Marker::Version(VERSION + 1)),
        Preparation::Refuse(VERSION + 1)
    );
}

#[test]
fn only_entries_are_read_from_the_history() {
    assert!(is_entry(b"abc-1.entry"));
    assert!(!is_entry(b".entry"));
    assert!(!is_entry(b"meta.json"));
    assert!(!is_entry(b"abc-1.entry.tmp"));
}
