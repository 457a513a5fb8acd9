//! Copied files: how they are named, listed, spooled and transferred.

use yank::config::MachineKey;
use yank::daemon::files::{
    room, Asked, Fetch, FetchError, FetchEvent, FetchStep, Snapshot, RETRIES,
};
use yank::config::Settings;
use yank::files::manifest::{total, validate, ManifestError};
use yank::files::store::{is_taking, Store};
use yank::files::transfer::{
    reply_to, Digest, Incoming, Landed, Pull, PullError, Transfer,
};
use yank::files::uri::{as_text, gnome_copied_files, paths, uri_list};
use yank::files::walk::{kept_name, walk, Found, Source, WalkError};
use yank::files::{join, FileRef};
use yank::log::EntryId;
use yank::net::proto::{ContentReply, ContentRequest};
use yank::ordmap::OrdMap;

fn hash_of(bytes: &[u8]) -> yank::files::Hash {
    yank::files::Hash::of(bytes)
}

fn file(path: &str) -> FileRef {
    FileRef {
        path: path.to_owned(),
        size: 0,
        hash: hash_of(b""),
    }
}

fn under(root: &str, files: &[FileRef]) -> Vec<Vec<u8>> {
    files
        .iter()
        .map(|file| join(root.as_bytes(), file.path.as_bytes()))
        .collect()
}

#[test]
fn a_uri_list_round_trips_through_a_root() {
    let files = vec![file("a b.txt"), file("photos/été.png")];
    let list = uri_list(&under("/spool/x", &files));

    assert_eq!(
        String::from_utf8_lossy(&list),
        "file:///spool/x/a%20b.txt\r\nfile:///spool/x/photos/%C3%A9t%C3%A9.png\r\n",
    );
    assert_eq!(
        paths(&list),
        vec![
            "/spool/x/a b.txt".as_bytes().to_vec(),
            "/spool/x/photos/été.png".as_bytes().to_vec(),
        ],
    );
}

#[test]
fn a_file_manager_is_told_to_copy_and_never_to_move() {
    let list = gnome_copied_files(&under("/spool/x", &[file("a.txt")]));

    assert_eq!(
        String::from_utf8_lossy(&list),
        "copy\nfile:///spool/x/a.txt"
    );
}

#[test]
fn a_gnome_list_names_the_paths_it_was_made_of() {
    let named = vec![b"/tmp/a b.txt".to_vec(), b"/tmp/\xff".to_vec()];
    assert_eq!(paths(&gnome_copied_files(&named)), named);
    assert!(paths(&gnome_copied_files(&[])).is_empty());
}

/// Of the paths in their order, two side by side clash when they are the same,
/// or the second lies under the first.
#[test]
fn paths_side_by_side_clash() {
    let refused = |list: &[&str]| {
        let files: Vec<FileRef> = list.iter().map(|path| file(path)).collect();
        validate(&files).err()
    };
    assert_eq!(refused(&["a", "a/b"]), Some(ManifestError::Clash));
    assert_eq!(refused(&["a/b", "c", "a"]), Some(ManifestError::Clash));
    assert_eq!(refused(&["c", "a", "c"]), Some(ManifestError::Clash));
    assert_eq!(refused(&["a/b", "a-b", "a"]), None);
    assert_eq!(refused(&["a", "a.txt", "a b"]), None);
    assert_eq!(refused(&["a/b", "a-b", "ab"]), None);
}

#[test]
fn only_local_files_are_taken_out_of_a_uri_list() {
    let list = b"# a comment\r\nhttps://example.com/x\r\nfile:///tmp/one\r\n\
                 file://elsewhere/tmp/two\r\nfile:/tmp/three\r\n";

    assert_eq!(
        paths(list),
        vec![b"/tmp/one".to_vec(), b"/tmp/three".to_vec()],
    );
}

#[test]
fn a_spooled_name_is_read_back_as_the_hash_it_is() {
    let hash = hash_of(b"hello");
    assert_eq!(yank::files::Hash::parse(&hash.file_name()), Some(hash));
    assert_eq!(yank::files::Hash::parse("not-a-hash"), None);
    assert_eq!(
        yank::files::Hash::parse(&format!("{}.part", hash.file_name())),
        None
    );
}

#[test]
fn a_name_is_the_hash_of_the_contents() {
    assert_eq!(
        hash_of(b"").file_name(),
        "af1349b9f5f9a1a6a0404dea36dcc9499bcb25c9adc112b7cc9a93cae41f3262"
    );
}

#[test]
fn a_path_from_a_peer_may_not_climb_out_of_the_tree() {
    assert!(file("photos/a.png").is_safe());
    assert!(!file("../../.ssh/authorized_keys").is_safe());
    assert!(!file("/etc/passwd").is_safe());
    assert!(!file("").is_safe());
}

/// A path from another application, half-escaped or not escaped at all, is
/// still a path worth having.
#[test]
fn half_an_escape_is_not_a_lost_path() {
    assert_eq!(
        paths(b"file:///tmp/100%\r\nfile:///tmp/%zz\r\nfile:///tmp/%41\r\n"),
        vec![
            b"/tmp/100%".to_vec(),
            b"/tmp/%zz".to_vec(),
            b"/tmp/A".to_vec(),
        ],
    );
}

#[test]
fn paths_read_as_lines() {
    assert_eq!(
        as_text(&[b"/a".to_vec(), b"/b".to_vec()]),
        b"/a\n/b\n".to_vec()
    );
}

fn store() -> Store {
    Store::new(b"/state/files")
}

fn id(seq: u64) -> EntryId {
    EntryId {
        origin: MachineKey::generate().endpoint_id(),
        seq,
    }
}

/// The same bytes under another name are the same content.
#[test]
fn taking_a_file_names_it_by_its_contents() {
    let store = store();
    let mut digest = Digest::new();
    digest.read(b"hel");
    digest.read(b"lo");

    let (hash, size) = digest.finish();
    assert_eq!(hash, hash_of(b"hello"));
    assert_eq!(size, 5);
    assert_eq!(
        store.blob(hash),
        join(store.blobs(), hash.file_name().as_bytes())
    );
    assert!(is_taking("taking-0123456789abcdef"));
    assert!(store.taking().starts_with(b"/state/files/blobs/taking-"));
    assert_eq!(
        store.taking_under(0x2a),
        b"/state/files/blobs/taking-000000000000002a".to_vec()
    );
}

#[test]
fn a_transfer_resumes_and_is_checked_against_what_it_claims() {
    let hash = hash_of(b"hello world");

    let mut incoming = Incoming::resume(hash, 0);
    assert_eq!(incoming.at(), 0);
    incoming.wrote(6);

    let mut incoming = Incoming::resume(hash, incoming.at());
    assert_eq!(incoming.at(), 6, "the transfer picks up where it stopped");
    incoming.wrote(5);

    let mut found = Digest::new();
    found.read(b"hello world");
    assert_eq!(incoming.finish(&found), Landed::Spooled);
}

#[test]
fn content_that_is_not_what_it_claims_is_thrown_away() {
    let mut incoming = Incoming::resume(hash_of(b"hello"), 0);
    incoming.wrote(7);
    let mut found = Digest::new();
    found.read(b"goodbye");

    assert_eq!(
        incoming.finish(&found),
        Landed::Refused,
        "resuming on top of the wrong bytes would never terminate",
    );
}

#[test]
fn a_tree_is_the_names_the_copy_had() {
    let store = store();
    let (one, two) = (hash_of(b"first"), hash_of(b"second"));
    let files = vec![
        FileRef {
            path: "a.txt".to_owned(),
            size: 5,
            hash: one,
        },
        FileRef {
            path: "photos/b.txt".to_owned(),
            size: 6,
            hash: two,
        },
    ];
    let id = id(1);
    let tree = store.tree(id);
    let links = store.lay_out(id, &files).unwrap();

    assert_eq!(links.len(), 2);
    assert_eq!(links[0].from, store.blob(one));
    assert_eq!(links[0].to, join(&tree, b"a.txt"));
    assert_eq!(links[1].from, store.blob(two));
    assert_eq!(links[1].to, join(&tree, b"photos/b.txt"));
}

#[test]
fn a_path_from_a_peer_is_never_followed_out_of_the_tree() {
    let files = vec![FileRef {
        path: "../escaped".to_owned(),
        size: 0,
        hash: hash_of(b""),
    }];

    assert!(store().lay_out(id(1), &files).is_none());
}

#[test]
fn sweeping_keeps_what_the_history_still_names() {
    let store = store();
    let origin = MachineKey::generate().endpoint_id();
    let (kept, gone) = (hash_of(b"kept"), hash_of(b"gone"));
    let live = EntryId { origin, seq: 1 };
    let dead = EntryId { origin, seq: 2 };

    let mut entries = OrdMap::new();
    entries.insert(live, ());
    let mut content = OrdMap::new();
    content.insert(kept, ());

    assert!(store.keeps_blob(Some(&kept.file_name()), &content));
    assert!(!store.keeps_blob(Some(&gone.file_name()), &content));
    assert!(store.keeps_tree(Some(&live.label()), &entries));
    assert!(!store.keeps_tree(Some(&dead.label()), &entries));
    assert!(store.keeps_blob(Some(&format!("{}.part", kept.file_name())), &content));
    assert!(!store.keeps_blob(Some(&format!("{}.part", gone.file_name())), &content));
    assert!(store.keeps_blob(Some("taking-0123456789abcdef"), &content));
    assert!(!store.keeps_blob(None, &content));
    assert!(!store.keeps_tree(None, &entries));
}

#[test]
fn a_reserved_blob_survives_until_its_manifest_is_published() {
    let mut store = store();
    let hash = hash_of(b"kept");
    store.reserve(hash);
    let files = [FileRef {
        path: "kept".to_owned(),
        size: 4,
        hash,
    }];
    let nothing = OrdMap::new();

    assert!(store.keeps_blob(Some(&hash.file_name()), &nothing));
    assert_eq!(store.reservations(hash), 1);

    store.release(&files);
    assert!(!store.keeps_blob(Some(&hash.file_name()), &nothing));
    assert_eq!(store.reservations(hash), 0);
}

fn found(path: &str, bytes: &[u8]) -> Found {
    Found::File {
        from: join(b"/home/x", path.as_bytes()),
        path: Some(path.to_owned()),
        size: bytes.len() as u64,
    }
}

#[test]
fn walking_a_selection_finds_the_files_under_the_names_they_keep() {
    let found = walk(
        vec![
            Found::Other,
            found("folder/one.txt", b"one"),
            Found::Other,
            found("folder/deep/two.txt", b"two"),
            found("three.txt", b"three"),
        ],
        16,
        1024,
    )
    .unwrap();

    let names: Vec<&str> = found.iter().map(|source| source.path.as_str()).collect();
    assert_eq!(
        names,
        vec!["folder/deep/two.txt", "folder/one.txt", "three.txt"],
    );
}

#[test]
fn a_file_keeps_its_name_from_the_root_on() {
    let named = |root: &[u8], path: &[u8]| kept_name(root, path);
    assert_eq!(
        named(b"/home/x/folder", b"/home/x/folder/deep/two.txt"),
        Some("folder/deep/two.txt".to_owned())
    );
    assert_eq!(
        named(b"/home/x/folder/", b"/home/x/folder/one.txt"),
        Some("folder/one.txt".to_owned())
    );
    assert_eq!(
        named(b"/home/x/three.txt", b"/home/x/three.txt"),
        Some("three.txt".to_owned())
    );
    assert_eq!(named(b"three.txt", b"three.txt"), Some("three.txt".to_owned()));
    // A `.` behind a separator is no part of its own, so the folder comes first.
    assert_eq!(
        named(b"/home/d/.", b"/home/d/./x"),
        Some("d/./x".to_owned())
    );
    assert_eq!(
        named(b"/home/d/././/", b"/home/d/././/x"),
        Some("d/././/x".to_owned())
    );
    assert_eq!(named(b"/home/d.", b"/home/d./x"), Some("d./x".to_owned()));
    assert_eq!(named(b".", b"./x"), Some("./x".to_owned()));
    assert_eq!(named(b"/home/x/a", b"/elsewhere/a"), None);
    assert_eq!(named(b"/home/x/a", b"/home/x/a/\xff"), None);
}

#[test]
fn two_files_under_one_name_are_refused() {
    let entries = vec![found("notes.txt", b"one"), found("notes.txt", b"two")];
    assert!(matches!(walk(entries, 16, 1024), Err(WalkError::SameName)));
}

#[test]
fn a_selection_over_the_caps_is_refused_rather_than_halved() {
    let entries = || {
        vec![
            found("folder/one.txt", b"one"),
            found("folder/two.txt", b"two"),
        ]
    };

    assert!(matches!(
        walk(entries(), 1, 1024),
        Err(WalkError::TooManyFiles)
    ));
    assert!(matches!(walk(entries(), 16, 4), Err(WalkError::TooLarge)));
}

#[test]
fn a_selection_of_nothing_is_refused_and_so_is_a_name_that_is_no_text() {
    let nothing = walk(vec![Found::Other], 16, 1024).unwrap();
    assert!(nothing.is_empty());
    assert!(matches!(
        Snapshot::begin(nothing, 0, 100),
        Err(WalkError::Empty)
    ));
    let unnameable = Found::File {
        from: b"/home/x/\xff".to_vec(),
        path: None,
        size: 1,
    };
    assert!(matches!(
        walk(vec![unnameable], 16, 1024),
        Err(WalkError::Unnameable)
    ));
}

#[test]
fn a_manifest_is_checked_before_it_is_believed() {
    let fine = vec![
        FileRef {
            path: "a".to_owned(),
            size: 3,
            hash: hash_of(b"abc"),
        },
        FileRef {
            path: "b/c".to_owned(),
            size: 4,
            hash: hash_of(b"abcd"),
        },
    ];
    assert_eq!(validate(&fine), Ok(()));
    assert_eq!(total(&fine), Ok(7));

    assert!(validate(&[file("../up")]).is_err());
    let clash: Result<(), ManifestError> = validate(&[file("a"), file("a")]);
    assert!(clash.is_err());
    assert!(validate(&[file("a"), file("a/b")]).is_err());
    let huge = vec![
        FileRef {
            path: "a".to_owned(),
            size: u64::MAX,
            hash: hash_of(b""),
        },
        FileRef {
            path: "b".to_owned(),
            size: 1,
            hash: hash_of(b""),
        },
    ];
    assert!(total(&huge).is_err());
}

fn wanted(size: u64) -> FileRef {
    FileRef {
        path: "a".to_owned(),
        size,
        hash: hash_of(b"hello world"),
    }
}

#[test]
fn a_transfer_asks_for_what_is_missing_and_takes_no_more() {
    let file = wanted(11);
    let incoming = Incoming::resume(file.hash, 6);
    let ask = Transfer::request(&incoming, &file);
    assert_eq!(ask.at, 6);

    let (mut transfer, next) = Transfer::answered(ask, ContentReply::Sending { size: 5 }, &file, 4);
    assert_eq!(next, Pull::Read { want: 4 });
    assert_eq!(transfer.received(4, 4), Pull::Read { want: 1 });
    assert_eq!(transfer.received(1, 4), Pull::Check);
}

#[test]
fn a_transfer_that_is_not_the_file_asked_for_fails() {
    let file = wanted(11);
    let incoming = Incoming::resume(file.hash, 0);
    let ask = Transfer::request(&incoming, &file);
    let (_, next) = Transfer::answered(ask, ContentReply::Missing, &file, 4);
    assert_eq!(next, Pull::Absent);
    let (_, next) = Transfer::answered(ask, ContentReply::Sending { size: 12 }, &file, 4);
    assert_eq!(next, Pull::Fail(PullError::WrongSize { offered: 12 }));
    let (mut transfer, _) =
        Transfer::answered(ask, ContentReply::Sending { size: 11 }, &file, 4);
    assert_eq!(
        transfer.received(0, 4),
        Pull::Fail(PullError::Short { left: 11 })
    );
}

#[test]
fn content_is_served_from_where_it_is_asked_for() {
    let ask = ContentRequest {
        hash: hash_of(b"hello"),
        at: 2,
    };
    assert_eq!(reply_to(ask, Some(5)), ContentReply::Sending { size: 3 });
    assert_eq!(reply_to(ask, None), ContentReply::Missing);
    assert_eq!(reply_to(ask, Some(1)), ContentReply::Missing);
}

#[test]
fn the_spool_takes_what_fits_in_its_budget() {
    assert!(room(10, 5, 15));
    assert!(!room(10, 6, 15));
    assert!(!room(u64::MAX, 1, u64::MAX));
}

fn source(path: &str, size: u64) -> Source {
    Source {
        from: join(b"/home/x", path.as_bytes()),
        path: path.to_owned(),
        size,
    }
}

#[test]
fn a_snapshot_reserves_what_it_takes_and_lets_go_when_it_fails() {
    let mut spool = store();
    let mut snapshot = Snapshot::begin(vec![source("a", 3), source("b", 4)], 0, 100).unwrap();
    assert_eq!(snapshot.next().unwrap().path, "a");
    let one = hash_of(b"abc");
    snapshot.took(&mut spool, one, 3);
    assert_eq!(spool.reservations(one), 1);
    assert_eq!(snapshot.next().unwrap().path, "b");
    snapshot.failed(&mut spool);
    assert_eq!(spool.reservations(one), 0);

    assert!(matches!(
        Snapshot::begin(vec![source("a", 3)], 98, 100),
        Err(WalkError::NoRoom { wanted: 3, budget: 100 })
    ));

    let mut snapshot = Snapshot::begin(vec![source("a", 3)], 0, 100).unwrap();
    snapshot.took(&mut spool, one, 3);
    assert!(snapshot.next().is_none());
    let list = snapshot.finish();
    assert_eq!(list.len(), 1);
    assert_eq!(list[0].path, "a");
    assert_eq!(list[0].hash, one);
}

#[test]
fn files_are_laid_out_once_they_are_all_here() {
    let list = vec![wanted(11)];
    let settings = Settings::default();
    let (mut fetch, step) = Fetch::begin(&list, 0, &settings);
    assert_eq!(step, FetchStep::Look { file: 0 });
    let looked = FetchEvent::Looked {
        here: false,
        peers: 2,
    };
    assert_eq!(fetch.on(looked), FetchStep::Pull { file: 0, peer: 0 });
    assert_eq!(
        fetch.on(FetchEvent::Pulled { had: false }),
        FetchStep::Pull { file: 0, peer: 1 }
    );
    assert_eq!(
        fetch.on(FetchEvent::Pulled { had: true }),
        FetchStep::LayOut
    );
}

#[test]
fn what_is_here_is_not_pulled() {
    let list = vec![wanted(11)];
    let (mut fetch, _) = Fetch::begin(&list, 0, &Settings::default());
    let looked = FetchEvent::Looked {
        here: true,
        peers: 2,
    };
    assert_eq!(fetch.on(looked), FetchStep::LayOut);
}

#[test]
fn files_no_machine_has_are_given_up_on_in_the_end() {
    let list = vec![wanted(11)];
    let (mut fetch, mut step) = Fetch::begin(&list, 0, &Settings::default());
    let mut waits = 0;
    while step != FetchStep::Fail(FetchError::Unavailable { file: 0 }) {
        step = match step {
            FetchStep::Look { .. } => fetch.on(FetchEvent::Looked {
                here: false,
                peers: 0,
            }),
            FetchStep::Wait => {
                waits += 1;
                fetch.on(FetchEvent::Waited)
            }
            other => panic!("unexpected step: {other:?}"),
        };
    }
    assert_eq!(waits, RETRIES - 1);
}

#[test]
fn files_over_the_limits_are_not_asked_for() {
    let list = vec![wanted(u64::MAX)];
    let (_, step) = Fetch::begin(&list, 0, &Settings::default());
    assert_eq!(step, FetchStep::Fail(FetchError::OverLimit));
    let list = vec![wanted(11)];
    let (_, step) = Fetch::begin(&list, u64::MAX, &Settings::default());
    assert_eq!(step, FetchStep::Fail(FetchError::NoRoom));
    let (_, step) = Fetch::begin(&[], 0, &Settings::default());
    assert_eq!(step, FetchStep::Nothing);
    let (_, step) = Fetch::begin(&[file("../up")], 0, &Settings::default());
    assert_eq!(
        step,
        FetchStep::Fail(FetchError::Manifest(ManifestError::Unsafe))
    );
}

#[test]
fn an_entry_is_asked_for_once_at_a_time() {
    let mut asked = Asked::new();
    let id = id(1);
    assert!(asked.ask(id));
    assert!(!asked.ask(id));
    asked.done(id);
    assert!(asked.ask(id));
}
