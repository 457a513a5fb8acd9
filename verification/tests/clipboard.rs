//! The clipboard, as the machines that share it see it.

use std::sync::Arc;

use yank::clip::event::{Event, Rep, Selection};
use yank::clip::mime;
use yank::clip::model::{ClipError, Pause, Switch};
use yank::clip::preview::{preview, preview_text};
use yank::clip::state::{Captured, Clipboard, Effect};
use yank::config::{MachineKey, Settings};
use yank::files::FileRef;
use yank::log::store::{Checkpoint, Log};
use yank::log::{EntryId, Hlc, Watermark, WireEntry};
use yank::net::proto::MAX_FETCH_ENTRIES;
use yank::time::{Span, Time};

fn clipboard() -> Clipboard {
    settings_clipboard(Settings::default())
}

fn settings_clipboard(settings: Settings) -> Clipboard {
    let settings = Arc::new(settings);
    let log = Log::new(
        MachineKey::generate().endpoint_id(),
        Clipboard::limits(&settings),
        Checkpoint::default(),
    );

    Clipboard::new(log, settings, Pause::default())
}

fn no_files() -> Vec<FileRef> {
    Vec::new()
}

fn text(text: &str) -> Selection {
    Selection::of(Rep::new("text/plain", text.as_bytes().to_vec()))
}

fn selection(reps: Vec<Rep>) -> Selection {
    Selection::new(reps).unwrap()
}

fn copy(board: &mut Clipboard, contents: &str) -> Vec<Effect> {
    board
        .copy(text(contents), no_files(), false, None)
        .unwrap()
        .1
}

fn now() -> Time {
    let since = std::time::SystemTime::now().duration_since(std::time::UNIX_EPOCH);
    Time { nanos: since.unwrap().as_nanos() }
}

fn copy_at(board: &mut Clipboard, contents: &str, now: Time) -> Vec<Effect> {
    board
        .copy_at(text(contents), no_files(), false, None, now)
        .unwrap()
        .1
}

fn captured(contents: &str, secret: bool) -> Captured {
    Captured {
        selection: text(contents),
        secret,
    }
}

/// Everything `from` holds, as a peer would send it to a machine that holds
/// nothing.
fn wire(from: &Clipboard) -> Vec<WireEntry> {
    from.since(&Watermark::default())
}

/// What `from` would answer a fetch from `to` with. Unlike [`wire`] this
/// respects the asking machine's watermark, so it never hands a machine its
/// own entries back, which no real fetch does either.
fn peer_fetch(from: &Clipboard, to: &Clipboard) -> Vec<WireEntry> {
    from.since(&to.have())
}

/// The first representation of everything put on the clipboard.
fn applied(effects: &[Effect]) -> Vec<String> {
    effects
        .iter()
        .filter_map(|effect| match effect {
            Effect::Apply(serves) => {
                Some(String::from_utf8_lossy(serves[0].bytes.as_slice()).into_owned())
            }
            _ => None,
        })
        .collect()
}

/// What one mutation put on the clipboard, by type.
fn served(effects: &[Effect]) -> Vec<(Vec<String>, String)> {
    effects
        .iter()
        .find_map(|effect| match effect {
            Effect::Apply(serves) => Some(serves),
            _ => None,
        })
        .expect("nothing was put on the clipboard")
        .iter()
        .map(|serve| {
            (
                serve.mimes.clone(),
                String::from_utf8_lossy(serve.bytes.as_slice()).into_owned(),
            )
        })
        .collect()
}

fn previews(board: &Clipboard) -> Vec<String> {
    board
        .history()
        .into_iter()
        .map(|item| item.preview.clone())
        .collect()
}

/// Some milliseconds after the epoch.
fn at_millis(millis: u128) -> Time {
    Time {
        nanos: millis * 1_000_000,
    }
}

const DAY: u128 = 1_700_000_000_000;

#[test]
fn copying_shares_it_and_puts_it_on_the_clipboard() {
    let mut board = clipboard();
    let effects = copy(&mut board, "hello");

    assert_eq!(applied(&effects), vec!["hello"]);
    assert_eq!(
        effects
            .iter()
            .filter(|effect| matches!(effect, Effect::Store(_)))
            .count(),
        1
    );
    assert_eq!(board.selection().unwrap().preview, "hello");
}

#[test]
fn what_the_compositor_reports_is_not_put_back() {
    let mut board = clipboard();
    let effects = board
        .captured(captured("typed elsewhere", false), no_files())
        .unwrap();

    // It is already on the clipboard: taking the selection away from the
    // application that owns it would gain nothing.
    assert!(applied(&effects).is_empty());
    assert_eq!(previews(&board), vec!["typed elsewhere"]);
}

/// A restart is not one either. What it would put on the clipboard is whatever
/// was copied last before it, and it would take the selection from the
/// application that owns it now.
#[test]
fn a_restored_history_is_not_put_back_on_the_clipboard() {
    let mut board = clipboard();
    copy(&mut board, "before the restart");

    let mut restarted = clipboard();
    let effects = restarted.restore(wire(&board));
    assert!(applied(&effects).is_empty());
    // Including on every reconciliation that follows: the service loop runs
    // one whenever it wakes to expire entries.
    assert!(applied(&restarted.expire(now())).is_empty());
    assert_eq!(restarted.selection().unwrap().preview, "before the restart");
}

/// What lands *after* the restart is a reason, or a machine coming back would
/// never take the clipboard the mesh moved on to.
#[test]
fn an_entry_arriving_after_a_restart_still_reaches_the_clipboard() {
    let mut board = clipboard();
    copy(&mut board, "before the restart");
    let mut restarted = clipboard();
    restarted.restore(wire(&board));

    copy(&mut board, "copied elsewhere since");
    let effects = restarted.accept(peer_fetch(&board, &restarted)).unwrap();

    assert_eq!(applied(&effects), vec!["copied elsewhere since"]);
}

#[test]
fn the_same_content_coming_back_is_not_a_new_entry() {
    let mut board = clipboard();
    copy(&mut board, "hello");

    // What a compositor announces after we set the selection, and what a
    // restart finds on the clipboard.
    let effects = board
        .captured(captured("hello", false), no_files())
        .unwrap();
    assert!(effects.is_empty());
    assert_eq!(board.history().len(), 1);
}

#[test]
fn catching_up_touches_the_clipboard_once() {
    let mut peer = clipboard();
    for text in ["one", "two", "three"] {
        copy(&mut peer, text);
    }

    let mut board = clipboard();
    let effects = board.accept(wire(&peer)).unwrap();

    // The whole backlog lands in the history, in order, and only the entry
    // that won reaches the clipboard.
    assert_eq!(previews(&board), vec!["three", "two", "one"]);
    assert_eq!(applied(&effects), vec!["three"]);
}

#[test]
fn a_local_copy_outranks_an_older_one_arriving_late() {
    let mut peer = clipboard();
    copy_at(&mut peer, "from the peer", at_millis(DAY));

    // The clock has millisecond resolution, and two entries sharing a
    // millisecond are ordered by machine, not by who copied first.
    let later = at_millis(DAY + 2);
    let mut board = clipboard();
    copy_at(&mut board, "typed just now", later);
    let effects = board.accept_at(wire(&peer), later).unwrap();

    // The peer's entry joins the history but does not win.
    assert!(applied(&effects).is_empty());
    assert_eq!(board.selection().unwrap().preview, "typed just now");
    assert_eq!(board.history().len(), 2);
}

#[test]
fn two_machines_fold_the_same_entries_into_the_same_state() {
    let mut first = clipboard();
    let mut second = clipboard();
    let later = at_millis(DAY + 2);
    copy_at(&mut first, "from the first", at_millis(DAY));
    copy_at(&mut second, "from the second", later);

    let (from_first, from_second) = (wire(&first), wire(&second));
    first.accept_at(from_second, later).unwrap();
    second.accept_at(from_first, later).unwrap();

    assert_eq!(previews(&first), previews(&second));
    assert_eq!(
        first.selection().unwrap().id,
        second.selection().unwrap().id,
    );
}

#[test]
fn clearing_empties_the_clipboard_and_keeps_the_history() {
    let mut board = clipboard();
    copy(&mut board, "hello");
    let effects = board.clear().unwrap();

    assert!(matches!(effects.as_slice(), [.., Effect::ClearSelection]));
    assert!(board.selection().is_none());
    assert_eq!(previews(&board), vec!["hello"]);
}

#[test]
fn a_clear_reaches_a_machine_that_was_offline() {
    let mut peer = clipboard();
    copy(&mut peer, "hello");
    peer.clear().unwrap();

    let mut board = clipboard();
    let effects = board.accept(wire(&peer)).unwrap();

    // The entry is in the history, but nothing is put on the clipboard: the
    // clear that followed it applies here too.
    assert_eq!(previews(&board), vec!["hello"]);
    assert!(board.selection().is_none());
    assert!(applied(&effects).is_empty());
}

#[test]
fn forgetting_an_entry_removes_it_everywhere() {
    let mut peer = clipboard();
    copy(&mut peer, "a mistake");
    let id = peer.selection().unwrap().id;
    peer.forget(id).unwrap();

    let mut board = clipboard();
    board.accept(wire(&peer)).unwrap();

    assert!(board.history().is_empty());
    assert!(peer.history().is_empty());
}

#[test]
fn a_forget_arriving_before_its_entry_still_applies() {
    let mut peer = clipboard();
    copy(&mut peer, "a mistake");
    let id = peer.selection().unwrap().id;
    peer.forget(id).unwrap();

    // The entry itself is dropped from the batch, as if it had been lost and
    // re-sent later by another machine.
    let mut entries = wire(&peer);
    let copied = entries.remove(0);

    let mut board = clipboard();
    board.accept(entries).unwrap();
    board.accept(vec![copied]).unwrap();

    assert!(board.history().is_empty());
}

#[test]
fn a_removal_that_comes_first_still_takes_effect() {
    let mut peer = clipboard();
    copy_at(&mut peer, "a mistake", at_millis(DAY));
    let entry = wire(&peer).remove(0);
    let id = entry.id;
    // Another machine heard of the entry, and forgets it.
    let mut other = clipboard();
    other.accept_at(wire(&peer), at_millis(DAY + 1)).unwrap();
    other.forget_at(id, at_millis(DAY + 2)).unwrap();

    let mut board = clipboard();
    board.accept_at(wire(&other), at_millis(DAY + 3)).unwrap();
    let effects = board.accept_at(vec![entry], at_millis(DAY + 4)).unwrap();
    assert!(matches!(effects[..], [Effect::Forget(gone)] if gone == id));
    assert!(board.history().is_empty());
    assert!(wire(&board).iter().all(|held| held.id != id));
    assert_eq!(board.have().get(&id.origin), id.seq);
}

/// A copy with no bytes and no files is refused here, and is no entry when a
/// peer sends one.
#[test]
fn a_copy_of_nothing_is_no_entry() {
    let mut board = clipboard();
    copy(&mut board, "something");
    assert!(board.copy(text(""), no_files(), false, None).is_err());

    let event = Event::Copy(yank::clip::event::Copy {
        selection: text(""),
        secret: false,
        ttl: None,
        files: no_files(),
    });
    let empty = WireEntry {
        id: EntryId {
            origin: MachineKey::generate().endpoint_id(),
            seq: 1,
        },
        clock: Hlc {
            millis: 1,
            counter: 0,
        },
        payload: event.encode().as_slice().to_vec(),
    };
    let id = empty.id;
    let effects = board.accept(vec![empty]).unwrap();
    assert!(matches!(effects[..], [Effect::Forget(gone)] if gone == id));
    assert_eq!(previews(&board), vec!["something"]);
}

#[test]
fn purging_drops_the_history_everywhere() {
    let mut peer = clipboard();
    copy(&mut peer, "one");
    copy(&mut peer, "two");
    peer.purge().unwrap();

    let mut board = clipboard();
    board.accept(wire(&peer)).unwrap();

    assert!(board.history().is_empty());
    assert!(peer.history().is_empty());
}

#[test]
fn a_lifetime_removes_the_entry_and_empties_the_clipboard() {
    let mut board = clipboard();
    board
        .copy(
            text("a password"),
            no_files(),
            true,
            Some(Span::from_secs(90)),
        )
        .unwrap();

    let deadline = board.next_expiry().unwrap();
    assert!(board.selection().is_some());

    let effects = board.expire(deadline);
    assert!(matches!(effects.as_slice(), [.., Effect::ClearSelection]));
    assert!(board.history().is_empty());
}

#[test]
fn an_expired_entry_does_not_fall_back_to_the_previous_one() {
    let mut board = clipboard();
    copy(&mut board, "something ordinary");
    board
        .copy(
            text("a password"),
            no_files(),
            true,
            Some(Span::from_secs(90)),
        )
        .unwrap();

    let deadline = board.next_expiry().unwrap();
    let effects = board.expire(deadline);
    assert!(applied(&effects).is_empty());
    assert!(board.selection().is_none());
    // The ordinary entry is still there to pick by hand.
    assert_eq!(previews(&board), vec!["something ordinary"]);
}

#[test]
fn an_entry_whose_lifetime_ran_out_in_transit_never_lands() {
    let mut peer = clipboard();
    peer.copy_at(
        text("a password"),
        no_files(),
        true,
        Some(Span::from_secs(1)),
        at_millis(DAY),
    )
    .unwrap();
    let entries = wire(&peer);

    let mut board = clipboard();
    board.accept_at(entries, at_millis(DAY + 1100)).unwrap();

    assert!(board.history().is_empty());
    assert!(board.selection().is_none());
}

/// A batch with a bad entry in the middle must leave the history and the log
/// exactly as they were. Taking the good half would put entries in the log that
/// never reached the history, and announce them to everyone else.
#[test]
fn half_a_bad_batch_is_not_taken() {
    let mut peer = clipboard();
    copy(&mut peer, "perfectly fine");
    let mut entries = wire(&peer);

    let settings = Arc::new(Settings::default());
    let origin = MachineKey::generate().endpoint_id();
    let log = Log::new(
        origin,
        Clipboard::limits(&settings),
        Checkpoint::default(),
    );
    let mut board = Clipboard::new(log, settings, Pause::default());
    entries.push(WireEntry {
        // An entry written under the receiver's own identity.
        id: EntryId { origin, seq: 1 },
        clock: Hlc::default(),
        payload: Vec::new(),
    });

    assert!(board.accept(entries).is_err());
    assert!(board.history().is_empty());
    assert_eq!(board.have().marks(), Watermark::default().marks());
}

/// A history the protocol cannot carry in one answer is a history that never
/// reaches a peer: the receiver refuses the over-long response, drops the
/// batch, and the two machines stop syncing with nothing to show for it but a
/// debug line.
#[test]
fn the_history_cannot_be_configured_past_what_a_fetch_carries() {
    let limits = Clipboard::limits(&Settings {
        history_limit: MAX_FETCH_ENTRIES * 2,
        ..Settings::default()
    });

    assert_eq!(limits.entries, MAX_FETCH_ENTRIES);
}

/// Reading a history back under a smaller limit has to say which files to
/// delete. Nothing else ever would: the entries are gone from the log, so no
/// later purge can name them, and their contents would stay on disk in plain
/// text for good.
#[test]
fn shrinking_the_history_asks_for_the_dropped_files_back() {
    let mut wide = settings_clipboard(Settings {
        history_limit: 4,
        ..Settings::default()
    });
    for text in ["one", "two", "three", "four"] {
        copy(&mut wide, text);
    }
    let stored = wire(&wide);

    // Both orders, because the directory hands files back in whichever it
    // likes, and an entry the caps drop the moment it lands is the case that
    // reports nothing on its own.
    for order in [stored.clone(), stored.into_iter().rev().collect()] {
        let mut narrow = settings_clipboard(Settings {
            history_limit: 2,
            ..Settings::default()
        });
        let effects = narrow.restore(order);

        assert_eq!(narrow.history().len(), 2);
        assert_eq!(
            effects.len(),
            2,
            "the two entries that did not fit must be deleted",
        );
        assert!(
            effects
                .iter()
                .all(|effect| matches!(effect, Effect::Forget(_))),
            "restoring must not ask for files it just read to be rewritten",
        );
    }
}

/// A purge covers everything written before it, including entries the machine
/// issuing it has never seen. Deriving its reach from the local history would
/// make `yank clear --history` on a machine that has not caught up a no-op that
/// reports success.
#[test]
fn purging_from_an_empty_machine_still_clears_the_others() {
    let mut peer = clipboard();
    copy_at(&mut peer, "one", at_millis(DAY));
    copy_at(&mut peer, "two", at_millis(DAY));

    let later = at_millis(DAY + 2);
    let mut board = clipboard();
    assert!(board.history().is_empty());
    board.purge_at(later).unwrap();

    // The purge reaches the machine that had the history...
    peer.accept_at(peer_fetch(&board, &peer), later).unwrap();
    assert!(peer.history().is_empty());

    // ...and its entries, arriving afterwards, do not come alive again on the
    // machine that purged them.
    board.accept_at(peer_fetch(&peer, &board), later).unwrap();
    assert!(board.history().is_empty());
}

/// The one property a later version of yank depends on: an event this build
/// cannot read is carried anyway.
///
/// It is what makes adding an event variant a change one machine can make on
/// its own. It is deliberately *not* written to disk, since a payload we cannot
/// read is one we cannot know is a secret; the watermark is rebuilt from the
/// disk on start, so a machine that restarts simply asks for it again.
#[test]
fn an_event_from_a_newer_version_is_carried_but_not_stored() {
    let origin = MachineKey::generate().endpoint_id();
    let mut board = clipboard();
    // A variant number no version of this enum has.
    let from_the_future = WireEntry {
        id: EntryId { origin, seq: 1 },
        clock: Hlc {
            millis: 1,
            counter: 0,
        },
        payload: vec![99],
    };

    let effects = board.accept(vec![from_the_future]).unwrap();

    assert!(board.history().is_empty(), "it means nothing to this build");
    assert_eq!(
        board.since(&Watermark::default()).len(),
        1,
        "but a peer that understands it must still be able to get it",
    );
    assert!(
        !effects
            .iter()
            .any(|effect| matches!(effect, Effect::Store(_))),
        "a payload we cannot read is one we cannot know is safe to keep",
    );
    assert_eq!(
        board.have().get(&origin),
        1,
        "and it is not asked for twice"
    );

    // Restarting rebuilds the watermark from what is on disk, so the entry
    // comes back around instead of being lost for good.
    let mut restarted = clipboard();
    restarted.restore(Vec::new());
    assert_eq!(restarted.have().marks(), Watermark::default().marks());
}

#[test]
fn a_secret_never_goes_to_disk_and_is_never_shown() {
    let mut board = clipboard();
    board
        .captured(captured("hunter2", true), no_files())
        .unwrap();

    assert_eq!(previews(&board), vec!["<secret>"]);
    let entries = wire(&board);
    // It still reaches the other machines, which is the point.
    assert_eq!(entries.len(), 1);

    let mut peer = clipboard();
    let effects = peer.accept(entries).unwrap();
    assert!(
        !effects
            .iter()
            .any(|effect| matches!(effect, Effect::Store(_))),
        "a secret must not be queued for the disk",
    );
    assert!(peer.selection().unwrap().secret);
}

#[test]
fn a_password_manager_hint_makes_an_entry_secret() {
    let mut board = settings_clipboard(Settings {
        secret_ttl: Span::from_secs(30),
        ..Settings::default()
    });
    board
        .captured(captured("hunter2", true), no_files())
        .unwrap();

    let item = board.selection().unwrap();
    assert!(item.secret);
    assert!(item.expires_at.is_some());
}

#[test]
fn pausing_capture_stops_sharing_what_is_copied_here() {
    let mut board = clipboard();
    board.set_pause(Some(Switch::Paused { until: None }), None);

    assert!(board
        .captured(captured("private", false), no_files())
        .unwrap()
        .is_empty());
    assert!(board.history().is_empty());
}

#[test]
fn pausing_apply_keeps_the_history_and_leaves_the_clipboard_alone() {
    let mut peer = clipboard();
    copy(&mut peer, "from the peer");

    let mut board = clipboard();
    board.set_pause(None, Some(Switch::Paused { until: None }));
    let effects = board.accept(wire(&peer)).unwrap();

    assert!(applied(&effects).is_empty());
    assert_eq!(previews(&board), vec!["from the peer"]);

    // Resuming applies what was decided while it was paused.
    let effects = board.set_pause(None, Some(Switch::On));
    assert_eq!(applied(&effects), vec!["from the peer"]);
}

#[test]
fn a_pause_with_a_deadline_lifts_itself() {
    let now = now();
    let past = Time {
        nanos: now.nanos - 1_000_000_000,
    };
    assert!(Switch::Paused { until: Some(past) }.is_on(now));
    assert!(!Switch::Paused { until: None }.is_on(now));
}

#[test]
fn picking_an_entry_makes_it_the_selection_again() {
    let mut board = clipboard();
    copy(&mut board, "first");
    let first = board.selection().unwrap().id;
    copy(&mut board, "second");

    let (picked, effects) = board.pick(first).unwrap();
    assert_eq!(applied(&effects), vec!["first"]);
    assert_eq!(board.selection().unwrap().id, picked);
    assert_eq!(previews(&board), vec!["first", "second", "first"]);
}

/// What a browser copy is: the same selection twice over. Both reach the
/// compositor, and the plain one under every name for text.
#[test]
fn every_representation_reaches_the_clipboard() {
    let mut board = clipboard();
    let reps = selection(vec![
        Rep::new("text/plain;charset=utf-8", b"hello".to_vec()),
        Rep::new("text/html", b"<b>hello</b>".to_vec()),
    ]);
    let effects = board.copy(reps, no_files(), false, None).unwrap().1;

    let served = served(&effects);
    assert_eq!(served.len(), 2);
    assert!(served[0].0.contains(&"UTF8_STRING".to_owned()));
    assert_eq!(served[0].1, "hello");
    assert_eq!(served[1].0, vec!["text/html".to_owned()]);

    let item = board.selection().unwrap();
    assert_eq!(item.mime, "text/plain;charset=utf-8");
    assert_eq!(item.size, 17);
}

#[test]
fn picking_an_entry_keeps_every_representation() {
    let mut board = clipboard();
    let reps = selection(vec![
        Rep::new("text/plain", b"hello".to_vec()),
        Rep::new("text/html", b"<b>hello</b>".to_vec()),
    ]);
    board.copy(reps, no_files(), false, None).unwrap();
    let first = board.selection().unwrap().id;
    copy(&mut board, "something else");

    let (_, effects) = board.pick(first).unwrap();
    assert_eq!(served(&effects).len(), 2);
}

/// Copying a file copies its path, and a path belongs to the machine it is on.
/// Handing it back as a file reference anywhere else would point a file manager
/// at nothing, or at a different file.
#[test]
fn a_file_reference_is_only_offered_where_it_came_from() {
    let mut peer = clipboard();
    let reps = selection(vec![
        Rep::new("text/uri-list", b"file:///home/x/y.iso\r\n".to_vec()),
        Rep::new(
            "x-special/gnome-copied-files",
            b"cut\nfile:///home/x/y.iso".to_vec(),
        ),
    ]);
    let effects = peer.copy(reps, no_files(), false, None).unwrap().1;
    assert_eq!(served(&effects)[0].0, vec!["text/uri-list".to_owned()]);

    let mut board = clipboard();
    let effects = board.accept(wire(&peer)).unwrap();

    let served = served(&effects);
    assert_eq!(served.len(), 1, "neither type survives the trip");
    assert!(served[0].0.contains(&"text/plain".to_owned()));
    assert_eq!(served[0].1, "file:///home/x/y.iso\r\n");
}

/// Picking writes the entry anew, under this machine's identity. What it claims
/// has to be what this machine can back up, so the paths of a file copied
/// elsewhere must not come back as a file reference.
#[test]
fn picking_a_file_copied_elsewhere_does_not_make_it_a_file_here() {
    let mut peer = clipboard();
    let reps = Selection::of(Rep::new("text/uri-list", b"file:///home/x/y.iso".to_vec()));
    peer.copy(reps, no_files(), false, None).unwrap();

    let mut board = clipboard();
    board.accept(wire(&peer)).unwrap();
    let picked = board.selection().unwrap().id;
    let (_, effects) = board.pick(picked).unwrap();

    let served = served(&effects);
    assert_eq!(served.len(), 1);
    assert!(served[0].0.contains(&"text/plain".to_owned()));
    assert!(!served[0].0.contains(&mime::URI_LIST.to_owned()));
}

/// A file manager offers what to do with the paths beside the paths themselves.
/// What survives on another machine is the paths.
#[test]
fn what_is_left_of_a_file_reference_is_the_paths_alone() {
    let mut peer = clipboard();
    let reps = selection(vec![
        Rep::new(
            "x-special/gnome-copied-files",
            b"cut\nfile:///home/x/y.iso".to_vec(),
        ),
        Rep::new("text/uri-list", b"file:///home/x/y.iso".to_vec()),
    ]);
    peer.copy(reps, no_files(), false, None).unwrap();

    let mut board = clipboard();
    let effects = board.accept(wire(&peer)).unwrap();

    assert_eq!(served(&effects)[0].1, "file:///home/x/y.iso");
}

fn one_file() -> Vec<FileRef> {
    vec![FileRef {
        path: "y.iso".to_owned(),
        size: 4,
        hash: yank::files::Hash::of(b"iso!"),
    }]
}

fn file_copy(board: &mut Clipboard) -> Vec<Effect> {
    let selection = Selection::of_files(&[b"/home/x/y.iso".to_vec()]);

    board.copy(selection, one_file(), false, None).unwrap().1
}

/// A file entry reaching the clipboard is asked for, once, and holds the paths
/// as text until it arrives: the clipboard is never held up for a transfer.
#[test]
fn a_file_entry_asks_for_its_contents_and_waits_as_text() {
    let mut peer = clipboard();
    file_copy(&mut peer);

    let mut board = clipboard();
    let effects = board.accept(wire(&peer)).unwrap();

    assert_eq!(
        effects
            .iter()
            .filter(|effect| matches!(effect, Effect::Fetch(_)))
            .count(),
        1,
    );
    let served = served(&effects);
    assert_eq!(served.len(), 1, "no file type is offered yet");
    assert!(served[0].0.contains(&"text/plain".to_owned()));
}

/// And once they land it is a file again, pointing at the copies that are here
/// rather than at a path on the machine that copied it.
#[test]
fn the_files_landing_makes_it_a_file_reference_again() {
    let mut peer = clipboard();
    file_copy(&mut peer);

    let mut board = clipboard();
    board.accept(wire(&peer)).unwrap();
    let id = board.selection().unwrap().id;
    let effects = board.materialized(id, b"/spool/trees/abc".to_vec());

    let served = served(&effects);
    let types: Vec<&str> = served.iter().map(|(mimes, _)| mimes[0].as_str()).collect();
    assert_eq!(
        types,
        vec![mime::PLAIN_TEXT, mime::URI_LIST, mime::GNOME_COPIED_FILES],
    );
    assert_eq!(
        served[0].1, "/spool/trees/abc/y.iso\n",
        "the text is a path this machine has, not the one it was copied from",
    );
    assert_eq!(served[1].1, "file:///spool/trees/abc/y.iso\r\n");
    assert_eq!(
        served[2].1, "copy\nfile:///spool/trees/abc/y.iso",
        "a cut pasted here would move the only copy of the content",
    );
}

/// And a picked one is a file again under the tree it earned, not under the one
/// it was picked from: the entry is written here, so nothing else would ever
/// rehome it.
#[test]
fn a_picked_file_entry_is_a_file_again_once_its_own_tree_lands() {
    let mut peer = clipboard();
    file_copy(&mut peer);

    let mut board = clipboard();
    board.accept(wire(&peer)).unwrap();
    let id = board.selection().unwrap().id;
    board.materialized(id, b"/spool/trees/first".to_vec());

    let (picked, _) = board.pick(id).unwrap();
    let effects = board.materialized(picked, b"/spool/trees/second".to_vec());

    let served = served(&effects);
    let types: Vec<&str> = served.iter().map(|(mimes, _)| mimes[0].as_str()).collect();
    assert_eq!(
        types,
        vec![mime::PLAIN_TEXT, mime::URI_LIST, mime::GNOME_COPIED_FILES],
    );
    assert_eq!(served[1].1, "file:///spool/trees/second/y.iso\r\n");
}

/// Picking a file entry copied elsewhere writes it under this machine's
/// identity, so it has to earn a tree of its own: the one it was pointing at
/// belongs to the entry it came from, and goes when that entry does.
#[test]
fn picking_a_file_entry_asks_for_a_tree_of_its_own() {
    let mut peer = clipboard();
    file_copy(&mut peer);

    let mut board = clipboard();
    board.accept(wire(&peer)).unwrap();
    let id = board.selection().unwrap().id;
    board.materialized(id, b"/spool/trees/first".to_vec());

    let (picked, effects) = board.pick(id).unwrap();
    assert!(effects
        .iter()
        .any(|effect| matches!(effect, Effect::Fetch(asked) if *asked == picked)));
    assert_eq!(board.files(picked).len(), 1, "it still names the content");

    let served = served(&effects);
    assert_eq!(served.len(), 1, "and offers no file until its tree exists");
    assert!(served[0].0.contains(&"text/plain".to_owned()));
}

/// And picking one whose files never arrived names no file at all: an entry
/// written here must not claim content this machine cannot serve.
#[test]
fn picking_a_file_entry_that_never_arrived_carries_no_manifest() {
    let mut peer = clipboard();
    file_copy(&mut peer);

    let mut board = clipboard();
    board.accept(wire(&peer)).unwrap();
    let id = board.selection().unwrap().id;

    let (picked, effects) = board.pick(id).unwrap();
    assert!(board.files(picked).is_empty());
    assert!(!effects
        .iter()
        .any(|effect| matches!(effect, Effect::Fetch(_))));
}

/// The spool may keep what the history still names, and nothing else.
#[test]
fn what_the_history_drops_the_spool_stops_keeping() {
    let mut peer = clipboard();
    file_copy(&mut peer);

    let mut board = clipboard();
    board.accept(wire(&peer)).unwrap();
    let id = board.selection().unwrap().id;

    let (entries, content) = board.referenced();
    assert!(entries.contains_key(&id));
    assert!(content.contains_key(&one_file()[0].hash));

    board.forget(id).unwrap();
    let (entries, content) = board.referenced();
    assert!(entries.len() == 0 && content.len() == 0);
}

/// A selection whose alternates do not fit is still worth sharing. What the cap
/// takes is the alternates, from the back, rather than the entry.
#[test]
fn what_does_not_fit_costs_the_alternates_not_the_entry() {
    let mut board = settings_clipboard(Settings {
        max_entry_size: 16,
        ..Settings::default()
    });
    board
        .captured(
            Captured {
                selection: selection(vec![
                    Rep::new("text/plain", b"hello".to_vec()),
                    Rep::new("text/html", vec![b'x'; 32]),
                ]),
                secret: false,
            },
            no_files(),
        )
        .unwrap();

    let item = board.selection().unwrap();
    assert_eq!(item.mime, "text/plain");
    assert_eq!(item.size, 5);
}

#[test]
fn oversized_selections_are_refused_locally() {
    let mut board = settings_clipboard(Settings {
        max_entry_size: 8,
        ..Settings::default()
    });

    assert!(board
        .copy(
            Selection::of(Rep::new("text/plain", vec![b'x'; 9])),
            no_files(),
            false,
            None
        )
        .is_err());
    assert!(board
        .captured(captured("much too long", false), no_files())
        .unwrap()
        .is_empty());
}

#[test]
fn entries_are_found_by_the_start_of_their_label() {
    let mut board = clipboard();
    copy(&mut board, "hello");
    let id = board.selection().unwrap().id;

    assert_eq!(board.resolve(&id.label()).unwrap().id, id);
    assert_eq!(board.resolve(&id.label()[..4]).unwrap().id, id);
    assert!(board.resolve("nope").is_err());
}

#[test]
fn previews_are_one_safe_line() {
    assert_eq!(preview("text/plain", b"one\ntwo", false), "one ⏎");
    assert_eq!(preview("text/plain", b"a\x1b[2Kb", false), "a?[2Kb");
    assert_eq!(
        preview("image/png", &[0; 2048], false),
        "<image/png, 2.0 KiB>"
    );
    assert_eq!(preview("text/plain", b"secret", true), "<secret>");
}

#[test]
fn a_preview_of_text_is_that_of_its_first_line() {
    assert_eq!(preview_text("\n  hello \nworld"), "hello ⏎");
    assert_eq!(preview_text(""), "");
    assert_eq!(preview("text/plain", "h\u{e9}llo".as_bytes(), false), "h\u{e9}llo");
    assert_eq!(preview("image/png", &[0; 1023], false), "<image/png, 1023 B>");
}

#[test]
fn a_long_line_is_cut() {
    let long = "x".repeat(1000);
    let line = preview("text/plain", long.as_bytes(), false);
    assert!(line.ends_with('…'));
    assert!(line.chars().count() < 200);
}

#[test]
fn an_entry_that_is_not_there_cannot_be_picked_or_read() {
    let mut board = clipboard();
    let id = EntryId {
        origin: MachineKey::generate().endpoint_id(),
        seq: 7,
    };
    assert!(matches!(board.body(id), Err(ClipError::Gone(_))));
    assert!(board.pick(id).is_err());
    assert!(board.tree(id).is_none());
    assert!(!board.is_local(id));
}

#[test]
fn nothing_is_named_when_the_clipboard_is_empty() {
    let board = clipboard();
    assert!(board.named(None).is_err());
    assert!(board.named(Some("abc")).is_err());
}

/// Whatever order two entries arrive in, every machine agrees on the winner.
#[test]
fn the_order_of_arrival_decides_nothing() {
    let mut one = clipboard();
    let mut two = clipboard();
    copy_at(&mut one, "earlier", at_millis(DAY));
    copy_at(&mut two, "later", at_millis(DAY + 5));
    let later = at_millis(DAY + 10);

    let mut forth = clipboard();
    forth.accept_at(wire(&one), later).unwrap();
    forth.accept_at(wire(&two), later).unwrap();
    let mut back = clipboard();
    back.accept_at(wire(&two), later).unwrap();
    back.accept_at(wire(&one), later).unwrap();

    assert_eq!(previews(&forth), vec!["later", "earlier"]);
    assert_eq!(previews(&forth), previews(&back));
    assert_eq!(forth.selection().unwrap().id, back.selection().unwrap().id);
}

#[test]
fn a_checkpoint_moves_with_every_entry_written_here() {
    let mut board = clipboard();
    assert_eq!(board.checkpoint().next_seq, 1);
    copy(&mut board, "hello");
    assert_eq!(board.checkpoint().next_seq, 2);
    assert_eq!(board.pause(), Pause::default());
}

/// What an entry holds, by type.
fn carried(board: &Clipboard, id: EntryId) -> Vec<(String, Vec<u8>)> {
    board
        .body(id)
        .unwrap()
        .selection
        .reps()
        .iter()
        .map(|rep| (rep.mime.clone(), rep.bytes.clone()))
        .collect()
}

#[test]
fn what_one_machine_copies_another_pastes() {
    let html = (String::from("text/html"), b"<b>hello</b>".to_vec());
    let plain = (String::from("text/plain"), b"hello".to_vec());
    let reps = vec![
        Rep::new("text/plain", b"hello".to_vec()),
        Rep::new("text/html", b"<b>hello</b>".to_vec()),
    ];
    let mut here = clipboard();
    let (id, _) = here.copy(selection(reps), no_files(), false, None).unwrap();
    assert_eq!(carried(&here, id), vec![plain.clone(), html.clone()]);

    let mut there = clipboard();
    let effects = there.accept(peer_fetch(&here, &there)).unwrap();
    assert_eq!(there.selection().unwrap().id, id);
    assert_eq!(carried(&there, id), vec![plain, html]);
    assert_eq!(applied(&effects), vec!["hello"]);
}

#[test]
fn a_restart_brings_the_history_back() {
    let mut board = clipboard();
    for text in ["one", "two", "three"] {
        copy(&mut board, text);
    }
    let id = board.selection().unwrap().id;

    let mut restarted = clipboard();
    restarted.restore(wire(&board));
    assert_eq!(previews(&restarted), previews(&board));
    assert_eq!(restarted.selection().unwrap().id, id);
    assert_eq!(carried(&restarted, id), carried(&board, id));
}

#[test]
fn picking_keeps_what_was_copied() {
    let mut board = clipboard();
    let minute = Span::from_secs(60);
    let (id, _) = board
        .copy(text("hunter2"), no_files(), true, Some(minute))
        .unwrap();
    let (picked, _) = board.pick(id).unwrap();

    let copied = board.body(picked).unwrap();
    assert!(copied.secret);
    assert_eq!(copied.ttl, Some(60));
    assert_eq!(carried(&board, picked), carried(&board, id));
}
