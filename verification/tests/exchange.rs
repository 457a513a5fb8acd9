//! Two machines, told of each other's entries without a network between them.

use std::sync::Arc;

use yank::clip::event::Rep;
use yank::config::{MachineKey, Settings};
use yank::daemon::clip::{ClipService, Order, Persisted};
use yank::daemon::hub::{Hub, Outgoing};
use yank::daemon::topics::Topics;
use yank::log::disk::{Op, Writer};
use yank::log::{EndpointId, WireEntry};
use yank::time::{Span, Time};

fn at(millis: u128) -> Time {
    Time {
        nanos: (1_700_000_000_000 + millis) * 1_000_000,
    }
}

fn text(text: &str) -> Rep {
    Rep::new("text/plain", text.as_bytes().to_vec())
}

/// A machine: its service, and what it has written to its disk.
struct Machine {
    identity: EndpointId,
    clip: ClipService,
    disk: Vec<Vec<u8>>,
}

impl Machine {
    fn start() -> Self {
        let identity = MachineKey::generate().endpoint_id();
        let clip = Self::open(identity, Persisted::default(), Vec::new());
        Machine {
            identity,
            clip,
            disk: Vec::new(),
        }
    }

    fn open(identity: EndpointId, kept: Persisted, entries: Vec<WireEntry>) -> ClipService {
        let writer = Writer {
            dir: b"/state/history".to_vec(),
        };
        let settings = Arc::new(Settings::default());
        ClipService::open(identity, settings, kept, writer, entries, at(0)).0
    }

    fn restart(&mut self) {
        let entries = self
            .disk
            .iter()
            .map(|bytes| WireEntry::decode(bytes).unwrap())
            .collect();
        self.clip = Self::open(self.identity, self.clip.persisted(), entries);
    }

    fn keep(&mut self, orders: Vec<Order>) {
        for order in orders {
            if let Order::Disk(Op::Store(_, bytes)) = order {
                self.disk.push(bytes);
            }
        }
    }

    fn copy(&mut self, contents: &str, now: Time) {
        let (_, orders) = self.clip.copy(text(contents), false, None, now).unwrap();
        self.keep(orders);
    }

    /// Asks the other machine for what is missing here.
    fn fetch(&mut self, from: &Machine, now: Time) {
        let entries = from.clip.since(&self.clip.have());
        let orders = self.clip.accept(entries, now).unwrap();
        self.keep(orders);
    }

    fn selection(&self) -> Option<String> {
        let (_, _, bytes) = self.clip.paste(None, None).ok()?;
        Some(String::from_utf8_lossy(&bytes).into_owned())
    }

    fn previews(&self) -> Vec<String> {
        let (items, _) = self.clip.history();
        items.into_iter().map(|item| item.preview).collect()
    }
}

#[test]
fn what_one_machine_copies_the_other_can_paste() {
    let (mut first, mut second) = (Machine::start(), Machine::start());
    first.copy("from the first", at(1));
    second.fetch(&first, at(2));
    assert_eq!(second.selection(), Some("from the first".to_owned()));

    second.copy("from the second", at(3));
    first.fetch(&second, at(4));
    assert_eq!(first.selection(), Some("from the second".to_owned()));
}

#[test]
fn a_machine_that_was_away_catches_up_in_order() {
    let (mut first, mut second) = (Machine::start(), Machine::start());
    for (n, text) in ["one", "two", "three"].into_iter().enumerate() {
        first.copy(text, at(n as u128));
    }
    second.restart();
    second.fetch(&first, at(10));
    assert_eq!(second.previews(), ["three", "two", "one"]);
    assert_eq!(second.selection(), Some("three".to_owned()));
}

#[test]
fn a_local_copy_survives_catching_up() {
    let (mut first, mut second) = (Machine::start(), Machine::start());
    first.copy("copied elsewhere while away", at(0));
    second.restart();
    second.copy("copied here just now", at(5));
    second.fetch(&first, at(6));
    assert_eq!(second.previews().len(), 2);
    assert_eq!(second.selection(), Some("copied here just now".to_owned()));
}

#[test]
fn removing_an_entry_removes_it_on_both() {
    let (mut first, mut second) = (Machine::start(), Machine::start());
    first.copy("a mistake", at(1));
    second.fetch(&first, at(2));
    assert_eq!(second.previews().len(), 1);

    let label = second.clip.history().1.unwrap().label();
    second.clip.forget(&label, at(3)).unwrap();
    first.fetch(&second, at(4));
    assert!(first.previews().is_empty());
    assert_eq!(first.selection(), None);
}

#[test]
fn clearing_reaches_a_machine_that_was_away() {
    let (mut first, mut second) = (Machine::start(), Machine::start());
    first.copy("something", at(1));
    second.fetch(&first, at(2));
    assert_eq!(second.selection(), Some("something".to_owned()));

    first.clip.clear(false, at(3)).unwrap();
    second.restart();
    second.fetch(&first, at(4));
    assert_eq!(second.selection(), None);
    assert_eq!(second.previews(), ["something"]);
}

#[test]
fn a_secret_reaches_the_other_machine_but_not_its_disk() {
    let (mut first, mut second) = (Machine::start(), Machine::start());
    let lasting = Some(Span::from_secs(600));
    let (_, orders) = first
        .clip
        .copy(text("hunter2"), true, lasting, at(1))
        .unwrap();
    first.keep(orders);
    second.fetch(&first, at(2));

    let (items, _) = second.clip.history();
    assert_eq!(items.len(), 1);
    assert!(items[0].secret);
    assert_eq!(items[0].preview, "<secret>");
    assert!(items[0].expires_at.is_some());
    assert_eq!(second.selection(), Some("hunter2".to_owned()));
    assert!(first.disk.is_empty());
    assert!(second.disk.is_empty());
}

#[test]
fn a_restarted_machine_announces_what_it_already_had() {
    let (mut first, mut second) = (Machine::start(), Machine::start());
    first.copy("written before either restarted", at(1));
    first.restart();
    second.restart();

    let mut hub = Hub::new();
    let Machine {
        identity,
        clip,
        disk,
    } = first;
    let topics = Topics { clipboard: clip };
    topics.announce_all(&mut hub);
    hub.connected(second.identity);
    assert!(matches!(
        hub.pop(&second.identity),
        Some(Outgoing::Membership(_))
    ));
    let Some(Outgoing::Summary(summary)) = hub.pop(&second.identity) else {
        panic!("the history is announced");
    };
    assert_eq!(summary.have.get(&identity), 1);

    let first = Machine {
        identity,
        clip: topics.clipboard,
        disk,
    };
    second.fetch(&first, at(2));
    assert_eq!(
        second.selection(),
        Some("written before either restarted".to_owned()),
    );
}

#[test]
fn a_restarted_machine_keeps_its_history() {
    let mut machine = Machine::start();
    machine.copy("written before the restart", at(1));
    machine.restart();
    assert_eq!(machine.previews(), ["written before the restart"]);
}
