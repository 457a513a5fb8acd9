//! What the clipboard of a machine is, and how it moves.
//!
//! Everything the clipboard *is* on this machine is derived from the log, by
//! folding entries in whatever order they arrive:
//!
//! - the **history** is every copied selection not forgotten, purged or
//!   expired, ordered by the mesh-wide clock;
//! - the **selection**, the thing actually on the clipboard, is the newest
//!   history entry written after the last clear.

use crate::clip::codec;
use crate::clip::event;
use crate::clip::event::{CopyView, EventView, RepView};
use crate::clip::offer;
use crate::clip::offer::ServeView;
use crate::clip::preview;
use crate::files;
use crate::files::{FileName, ManifestError};
use crate::log;
use crate::log::store;
use crate::log::{Change, Entry, EntryId, Hlc, LogError, LogState, OrderKey, WireEntry};
use crate::ordmap;
use crate::ordmap::Ranked;
use crate::time::{Span, Time, NANOS_PER_MILLI, NANOS_PER_SEC};
use vstd::prelude::*;

verus! {

/// Whether a direction of the clipboard is running.
#[derive(Clone, Copy, Debug, PartialEq, Eq, Structural)]
pub enum Switch {
    On,
    /// Off, until the given time or until `yank resume`.
    Paused { until: Option<Time> },
}

impl Default for Switch {
    fn default() -> (switch: Self)
        ensures
            switch == Switch::On,
    {
        Switch::On
    }
}

impl Switch {
    /// Whether the direction is running at `now`.
    pub open spec fn running(self, now: Time) -> bool {
        match self {
            Switch::On => true,
            Switch::Paused { until } => match until {
                Some(until) => now.nanos >= until.nanos,
                None => false,
            },
        }
    }

    /// Whether the direction is running at `now`, a paused-until having
    /// elapsed counting as running.
    pub fn is_on(self, now: Time) -> (r: bool)
        ensures
            r == self.running(now),
    {
        match self {
            Switch::On => true,
            Switch::Paused { until } => match until {
                Some(until) => now.nanos >= until.nanos,
                None => false,
            },
        }
    }
}

/// Which directions of the clipboard are running.
#[derive(Clone, Copy, Debug, PartialEq, Eq, Structural)]
pub struct Pause {
    /// Sharing what is copied here.
    pub capture: Switch,
    /// Putting what others copied on this clipboard.
    pub apply: Switch,
}

impl Default for Pause {
    fn default() -> (pause: Self)
        ensures
            pause == (Pause { capture: Switch::On, apply: Switch::On }),
    {
        Pause { capture: Switch::On, apply: Switch::On }
    }
}

/// One entry as the history shows it.
#[verifier::ext_equal]
pub struct ItemView {
    pub id: EntryId,
    pub clock: Hlc,
    /// The type the entry is named by.
    pub mime: Seq<char>,
    /// What the entry weighs: every representation, and the files it names.
    pub size: usize,
    pub secret: bool,
    /// When this entry disappears everywhere, if it was given a lifetime.
    pub expires_at: Option<Time>,
    /// One line describing the contents.
    pub preview: Seq<char>,
    /// The files the entry names.
    pub files: Seq<FileName>,
    /// Hash of the copied bytes.
    pub hash: Seq<u8>,
}

/// What a mutation asks the caller to do.
pub enum EffectView {
    /// Write this entry to the history directory.
    Store(Entry),
    /// Remove this entry's file.
    Forget(EntryId),
    /// Put these representations of a selection on the local clipboard.
    Apply(Seq<ServeView>),
    /// Empty the local clipboard.
    ClearSelection,
    /// Bring the files this entry names onto this machine.
    Fetch(EntryId),
}

/// When an entry written at `clock` with a lifetime disappears: a lifetime
/// after it was written, but never further out than one from now, so that a
/// machine whose clock is in the future cannot keep a password around longer
/// than it promised.
pub open spec fn deadline(clock: Hlc, ttl: u32, now: Time) -> Time {
    let written = clock.millis * NANOS_PER_MILLI;
    Time {
        nanos: ((if written < now.nanos {
            written
        } else {
            now.nanos as int
        }) + ttl * NANOS_PER_SEC) as u128,
    }
}

/// A number of bytes added to a length, as far as a length goes.
pub open spec fn added(length: usize, bytes: nat) -> usize {
    if length + bytes <= usize::MAX {
        (length + bytes) as usize
    } else {
        usize::MAX
    }
}

/// Whether a deadline has come.
pub open spec fn due(deadline: Option<Time>, now: Time) -> bool {
    deadline matches Some(deadline) && now.nanos >= deadline.nanos
}

/// Whether a copy carries nothing at all: no bytes, and no files.
pub open spec fn carries_nothing(copy: CopyView) -> bool {
    copy.files.len() == 0 && event::counted_weight(copy.reps) == 0
}

/// The history entry for a copy, or none when its lifetime has already run
/// out, when the files it names are refused, and when it carries nothing at
/// all.
pub open spec fn item_of(entry: Entry, copy: CopyView, now: Time) -> Option<ItemView> {
    let expires_at = match copy.ttl {
        Some(ttl) => Some(deadline(entry.clock, ttl, now)),
        None => None,
    };
    if files::manifest::refusal(copy.files) is Some || due(expires_at, now) || carries_nothing(
        copy,
    ) {
        None
    } else {
        Some(
            ItemView {
                id: entry.id,
                clock: entry.clock,
                mime: copy.reps[0].0,
                size: added(event::counted_weight(copy.reps), files::manifest::sum(copy.files)),
                secret: copy.secret,
                expires_at,
                preview: preview::preview_of(copy.reps[0].0, copy.reps[0].1, copy.secret),
                files: copy.files,
                hash: files::blake3_hash(copy.reps[0].1),
            },
        )
    }
}

/// The lifetime an entry gets, in seconds: what was asked for, or the
/// configured default when it is a secret and nothing was asked.
pub open spec fn lifetime(secret: bool, ttl: Option<Span>, default: Span) -> Option<u32> {
    let span = match ttl {
        Some(span) => Some(span),
        None => if secret {
            Some(default)
        } else {
            None
        },
    };
    match span {
        Some(span) => Some(
            if span.nanos / NANOS_PER_SEC <= u32::MAX {
                (span.nanos / NANOS_PER_SEC) as u32
            } else {
                u32::MAX
            },
        ),
        None => None,
    }
}

/// The representations that fit a cap, from the front, or none when the first
/// alone does not.
pub open spec fn fitted(reps: Seq<RepView>, cap: usize) -> Option<Seq<RepView>>
    decreases reps.len(),
{
    if event::counted_weight(reps) <= cap {
        Some(reps)
    } else if reps.len() <= 1 {
        None
    } else {
        fitted(reps.drop_last(), cap)
    }
}

/// What the clipboard of a machine is.
#[verifier::ext_equal]
pub struct ClipState {
    pub log: LogState,
    /// The visible history.
    pub items: Map<EntryId, ItemView>,
    /// Entries dropped mesh-wide, remembered so a forget that arrives before
    /// the entry it names still takes effect.
    pub forgotten: Set<EntryId>,
    /// Nothing written at or before this point is kept.
    pub purged_through: Hlc,
    /// Nothing written at or before this point can be the selection.
    pub cleared_through: Hlc,
    /// The entry we last put on the local clipboard, whether or not it is
    /// still there.
    pub applied: Option<EntryId>,
    /// Entries whose files are on this machine, and where they were laid out.
    pub ready: Map<EntryId, Seq<u8>>,
    pub pause: Pause,
}

/// The place of a history entry in the mesh-wide order.
pub open spec fn item_order(item: ItemView) -> int {
    (OrderKey { clock: item.clock, id: item.id }).rank()
}

/// The names of the history entries of which something holds, in their order.
pub open spec fn named_in_order(
    items: Map<EntryId, ItemView>,
    p: spec_fn(ItemView) -> bool,
) -> Seq<EntryId> {
    ordmap::in_order(items.dom().filter(|id: EntryId| p(items[id])))
}

/// Some entries, to be forgotten.
pub open spec fn forgets(ids: Seq<EntryId>) -> Seq<EffectView> {
    ids.map_values(|id: EntryId| EffectView::Forget(id))
}

/// An entry queued for the disk, unless it must never touch one.
pub open spec fn stores(entry: Entry) -> Seq<EffectView> {
    if entry.durable {
        seq![EffectView::Store(entry)]
    } else {
        Seq::empty()
    }
}

impl ClipState {
    /// What holds of a clipboard at all times.
    pub open spec fn valid(self) -> bool {
        &&& self.log.valid()
        &&& self.items.dom().finite()
        &&& forall|id: EntryId| #[trigger]
            self.items.contains_key(id) ==> self.items[id].id == id
    }

    /// Whether a history entry is the selection: the newest of those written
    /// after the last clear.
    pub open spec fn is_selected(self, id: EntryId) -> bool {
        &&& self.items.contains_key(id)
        &&& self.items[id].clock.rank() > self.cleared_through.rank()
        &&& forall|other: EntryId| #[trigger]
            self.items.contains_key(other) && self.items[other].clock.rank()
                > self.cleared_through.rank() ==> item_order(self.items[other]) <= item_order(
                self.items[id],
            )
    }

    /// The entry on the clipboard, as far as the mesh is concerned.
    pub open spec fn selected(self) -> Option<EntryId> {
        if exists|id: EntryId| self.is_selected(id) {
            Some(choose|id: EntryId| self.is_selected(id))
        } else {
            None
        }
    }

    /// The copy an entry of the log says, if it says one.
    pub open spec fn copied(self, id: EntryId) -> Option<CopyView> {
        if self.log.entries.contains_key(id) {
            match codec::decoding(self.log.entries[id].bytes()) {
                Some(EventView::Copy(copy)) => Some(copy),
                _ => None,
            }
        } else {
            None
        }
    }

    /// Whether an entry was copied on this machine.
    pub open spec fn is_ours(self, id: EntryId) -> bool {
        id.origin == self.log.origin
    }

    /// The representations of an entry that mean anything on this machine: a
    /// path is only true where the files are.
    pub open spec fn carried(self, copy: CopyView, id: EntryId) -> Seq<RepView> {
        if self.ready.contains_key(id) {
            offer::rehomed_reps(copy, self.ready[id])
        } else if self.is_ours(id) {
            copy.reps
        } else {
            offer::stripped_reps(copy.reps)
        }
    }

    /// Without one entry, in the history or in the log.
    pub open spec fn without(self, id: EntryId) -> ClipState {
        ClipState {
            items: self.items.remove(id),
            ready: self.ready.remove(id),
            log: self.log.remove(id),
            ..self
        }
    }

    /// Without some entries, in the history or in the log.
    pub open spec fn without_all(self, ids: Seq<EntryId>) -> ClipState
        decreases ids.len(),
    {
        if ids.len() == 0 {
            self
        } else {
            self.without_all(ids.drop_last()).without(ids.last())
        }
    }

    /// With one new log entry taken into account at `now`, and what that asks
    /// for.
    pub open spec fn add(self, entry: Entry, now: Time) -> (ClipState, Seq<EffectView>) {
        match codec::decoding(entry.bytes()) {
            // An entry a newer version wrote. It stays in the log so it keeps
            // propagating, but it means nothing here.
            None => (self, Seq::empty()),
            Some(EventView::Copy(copy)) => {
                let gone = (
                    ClipState { log: self.log.remove(entry.id), ..self },
                    seq![EffectView::Forget(entry.id)],
                );
                if self.forgotten.contains(entry.id) || entry.clock.rank()
                    <= self.purged_through.rank() {
                    gone
                } else {
                    match item_of(entry, copy, now) {
                        Some(item) => (
                            ClipState { items: self.items.insert(entry.id, item), ..self },
                            stores(entry),
                        ),
                        None => gone,
                    }
                }
            },
            Some(EventView::Clear) => (
                ClipState { cleared_through: self.cleared_through.later(entry.clock), ..self },
                stores(entry),
            ),
            Some(EventView::Forget(target)) => (
                ClipState { forgotten: self.forgotten.insert(target), ..self }.without(target),
                seq![EffectView::Forget(target)] + stores(entry),
            ),
            Some(EventView::Purge) => {
                let stale = named_in_order(
                    self.items,
                    |item: ItemView| item.clock.rank() <= entry.clock.rank(),
                );
                (
                    ClipState {
                        purged_through: self.purged_through.later(entry.clock),
                        ..self
                    }.without_all(stale),
                    forgets(stale) + stores(entry),
                )
            },
        }
    }

    /// With one change of the log taken into account at `now`, and what that
    /// asks for.
    pub open spec fn take(self, change: Change, now: Time) -> (ClipState, Seq<EffectView>) {
        match change {
            Change::Added(entry) => self.add(entry, now),
            Change::Dropped(id) => (
                ClipState { items: self.items.remove(id), ..self },
                seq![EffectView::Forget(id)],
            ),
        }
    }

    /// With changes of the log taken into account at `now`, one after the
    /// other, and what that asks for.
    pub open spec fn fold(self, changes: Seq<Change>, now: Time) -> (ClipState, Seq<EffectView>)
        decreases changes.len(),
    {
        if changes.len() == 0 {
            (self, Seq::empty())
        } else {
            let (before, effects) = self.fold(changes.drop_last(), now);
            let (after, more) = before.take(changes.last(), now);
            (after, effects + more)
        }
    }

    /// With the local clipboard brought in line with the selection at `now`,
    /// and what that asks for.
    pub open spec fn reconcile(self, now: Time) -> (ClipState, Seq<EffectView>) {
        if !self.pause.apply.running(now) {
            (self, Seq::empty())
        } else {
            match self.selected() {
                Some(id) => match self.copied(id) {
                    Some(copy) => if self.applied == Some(id) {
                        (self, Seq::empty())
                    } else {
                        let fetch = copy.files.len() > 0 && !copy.secret && !self.is_ours(id)
                            && !self.ready.contains_key(id);
                        (
                            ClipState { applied: Some(id), ..self },
                            (if fetch {
                                seq![EffectView::Fetch(id)]
                            } else {
                                Seq::empty()
                            }).push(EffectView::Apply(offer::served(self.carried(copy, id)))),
                        )
                    },
                    None => (self, Seq::empty()),
                },
                None => if self.applied is Some {
                    (ClipState { applied: None, ..self }, seq![EffectView::ClearSelection])
                } else {
                    (self, Seq::empty())
                },
            }
        }
    }

    /// With changes of the log taken into account and the clipboard brought in
    /// line, and what that asks for.
    pub open spec fn ingest(self, changes: Seq<Change>, now: Time) -> (ClipState, Seq<EffectView>) {
        let (folded, effects) = self.fold(changes, now);
        let (settled, more) = folded.reconcile(now);
        (settled, effects + more)
    }

    /// With an event of this machine written to the log at `now`, the changes
    /// that makes, and nothing taken into account yet.
    pub open spec fn write(self, event: EventView, durable: bool, now: Time) -> (
        ClipState,
        Seq<Change>,
    ) {
        let (log, changes) = self.log.append(
            log::payload_of(codec::encoding(event)),
            durable,
            now.whole_millis(),
        );
        (ClipState { log, ..self }, changes)
    }

    /// Whether the log takes an event: its encoding is within the limit.
    pub open spec fn takes(self, event: EventView) -> bool {
        codec::encoding(event).len() <= self.log.limits.payload
    }

    /// With an event of this machine written at `now` and taken into account,
    /// and what that asks for.
    pub open spec fn say(self, event: EventView, durable: bool, now: Time) -> (
        ClipState,
        Seq<EffectView>,
    ) {
        let (written, changes) = self.write(event, durable, now);
        written.ingest(changes, now)
    }

    /// With what was captured off the clipboard recorded at `now`: the bytes
    /// are on it already, so the new entry counts as applied before the
    /// clipboard is brought in line.
    pub open spec fn record(self, event: EventView, durable: bool, now: Time) -> (
        ClipState,
        Seq<EffectView>,
    ) {
        let (written, changes) = self.write(event, durable, now);
        let (folded, effects) = written.fold(changes, now);
        let (settled, more) = ClipState { applied: Some(self.log.next_id()), ..folded }.reconcile(
            now,
        );
        (settled, effects + more)
    }

    /// Why an entry of a peer is refused, if it is.
    pub open spec fn entry_refusal(self, id: EntryId, payload: Seq<u8>) -> Option<ClipError> {
        match self.log.refusal(id, payload.len()) {
            Some(error) => Some(ClipError::Log(error)),
            None => match codec::decoding(payload) {
                Some(EventView::Copy(copy)) => match files::manifest::refusal(copy.files) {
                    Some(error) => Some(ClipError::Manifest(error)),
                    None => None,
                },
                _ => None,
            },
        }
    }

    /// Why a batch of a peer is refused, if it is: the refusal of the first
    /// entry that is refused.
    pub open spec fn batch_refusal(self, wires: Seq<WireEntry>) -> Option<ClipError>
        decreases wires.len(),
    {
        if wires.len() == 0 {
            None
        } else {
            match self.batch_refusal(wires.drop_last()) {
                Some(error) => Some(error),
                None => self.entry_refusal(wires.last().id, wires.last().payload@),
            }
        }
    }
}

/// Whether an entry may be persisted, by what it says: the machine that copied
/// it is the one that knew it was a password.
pub open spec fn is_durable(payload: Seq<u8>) -> bool {
    match codec::decoding(payload) {
        Some(EventView::Copy(copy)) => !copy.secret,
        Some(_) => true,
        None => false,
    }
}

/// A log once a batch of acceptable entries has been taken, and the changes
/// that makes.
pub open spec fn accept_all(log: LogState, wires: Seq<WireEntry>, wall: u64) -> (
    LogState,
    Seq<Change>,
)
    decreases wires.len(),
{
    if wires.len() == 0 {
        (log, Seq::empty())
    } else {
        let (before, changes) = accept_all(log, wires.drop_last(), wall);
        let wire = wires.last();
        let (after, more) = before.accept(
            store::taken(wire, is_durable(wire.payload@)),
            wall,
        );
        (after, changes + more)
    }
}

/// A log once entries read back from disk are in it, and the changes that
/// makes.
pub open spec fn restore_all(log: LogState, wires: Seq<WireEntry>, wall: u64) -> (
    LogState,
    Seq<Change>,
)
    decreases wires.len(),
{
    if wires.len() == 0 {
        (log, Seq::empty())
    } else {
        let (before, changes) = restore_all(log, wires.drop_last(), wall);
        let (after, more) = before.restore(store::taken(wires.last(), true), wall);
        (after, changes + more)
    }
}

/// The entries among some that a log does not hold.
pub open spec fn lost(log: LogState, wires: Seq<WireEntry>) -> Seq<EntryId>
    decreases wires.len(),
{
    if wires.len() == 0 {
        Seq::empty()
    } else if log.entries.contains_key(wires.last().id) {
        lost(log, wires.drop_last())
    } else {
        lost(log, wires.drop_last()).push(wires.last().id)
    }
}

impl ClipState {
    /// With entries read back from disk at `now`. What was read back has had
    /// its turn on the clipboard: the selection counts as applied.
    pub open spec fn restore(self, wires: Seq<WireEntry>, now: Time) -> ClipState {
        let (log, changes) = restore_all(self.log, wires, now.whole_millis());
        let folded = ClipState { log, ..self }.fold(changes, now).0;
        ClipState { applied: folded.selected(), ..folded }
    }

    /// Without an entry whose lifetime has run out. One that was the selection
    /// empties the clipboard instead of falling back to an older one.
    pub open spec fn expire_one(self, id: EntryId) -> ClipState {
        let cleared = if self.selected() == Some(id) {
            self.cleared_through.later(self.items[id].clock)
        } else {
            self.cleared_through
        };
        ClipState { cleared_through: cleared, ..self }.without(id)
    }

    /// Without some entries whose lifetime has run out.
    pub open spec fn expire_all(self, ids: Seq<EntryId>) -> ClipState
        decreases ids.len(),
    {
        if ids.len() == 0 {
            self
        } else {
            self.expire_all(ids.drop_last()).expire_one(ids.last())
        }
    }

    /// The entries whose lifetime has run out at `now`.
    pub open spec fn expired(self, now: Time) -> Seq<EntryId> {
        named_in_order(self.items, |item: ItemView| due(item.expires_at, now))
    }

    /// Without what has expired at `now`, the clipboard brought in line at
    /// `at`, and what that asks for.
    pub open spec fn expire(self, now: Time, at: Time) -> (ClipState, Seq<EffectView>) {
        let (settled, more) = self.expire_all(self.expired(now)).reconcile(at);
        (settled, forgets(self.expired(now)) + more)
    }

    /// With the directions that are named switched.
    pub open spec fn switched(self, capture: Option<Switch>, apply: Option<Switch>) -> ClipState {
        ClipState {
            pause: Pause {
                capture: match capture {
                    Some(capture) => capture,
                    None => self.pause.capture,
                },
                apply: match apply {
                    Some(apply) => apply,
                    None => self.pause.apply,
                },
            },
            ..self
        }
    }

    /// With an entry's files on this machine under `tree`, offered as files if
    /// it is what the clipboard holds, and what that asks for.
    pub open spec fn materialize(self, id: EntryId, tree: Seq<u8>, now: Time) -> (
        ClipState,
        Seq<EffectView>,
    ) {
        ClipState {
            ready: self.ready.insert(id, tree),
            applied: if self.applied == Some(id) {
                None
            } else {
                self.applied
            },
            ..self
        }.reconcile(now)
    }
}

/// What copying something says.
pub open spec fn copy_event(
    reps: Seq<RepView>,
    files: Seq<FileName>,
    secret: bool,
    ttl: Option<Span>,
    default: Span,
) -> EventView {
    EventView::Copy(CopyView { reps, secret, ttl: lifetime(secret, ttl, default), files })
}

impl ClipState {
    /// Why copying something is refused, if it is, with `cap` bytes allowed by
    /// the settings.
    pub open spec fn copy_refusal(self, event: EventView, cap: usize) -> Option<ClipError> {
        let copy = event->Copy_0;
        let size = event::counted_weight(copy.reps);
        if files::manifest::refusal(copy.files) is Some {
            Some(ClipError::Manifest(files::manifest::refusal(copy.files)->0))
        } else if size == 0 {
            Some(ClipError::Nothing)
        } else if size > cap {
            Some(ClipError::TooLarge)
        } else if !self.takes(event) {
            Some(ClipError::Log(LogError::TooLarge(self.log.limits.payload)))
        } else {
            None
        }
    }
}

/// Why the clipboard refuses something.
#[derive(Clone, Copy, Debug, PartialEq, Eq, Structural)]
pub enum ClipError {
    /// There is nothing to copy.
    Nothing,
    /// The selection is larger than the limit in `config.toml`.
    TooLarge,
    /// The log refuses the entry.
    Log(LogError),
    /// The manifest of files is refused.
    Manifest(ManifestError),
    /// The entry is gone.
    Gone(EntryId),
    /// The entry is not a copied selection.
    NotACopy(EntryId),
    /// The entry does not decode.
    Undecodable(EntryId),
    /// No entry matches what was typed.
    NoMatch,
    /// This many entries match what was typed.
    Ambiguous(usize),
    /// The clipboard is empty.
    Empty,
}

impl ClipState {
    /// Why an entry has no copy to give.
    pub open spec fn body_error(self, id: EntryId) -> ClipError {
        if !self.log.entries.contains_key(id) {
            ClipError::Gone(id)
        } else if codec::decoding(self.log.entries[id].bytes()) is Some {
            ClipError::NotACopy(id)
        } else {
            ClipError::Undecodable(id)
        }
    }
}

/// Only one history entry is the selection.
pub proof fn lemma_selected(state: ClipState, id: EntryId)
    requires
        forall|id: EntryId| #[trigger]
            state.items.contains_key(id) ==> state.items[id].id == id,
        state.is_selected(id),
    ensures
        state.selected() == Some(id),
{
    let other = choose|other: EntryId| state.is_selected(other);
    assert(state.is_selected(other));
    assert(item_order(state.items[id]) == item_order(state.items[other]));
    OrderKey::rank_is_unique(
        OrderKey { clock: state.items[id].clock, id: state.items[id].id },
        OrderKey { clock: state.items[other].clock, id: state.items[other].id },
    );
}

impl ClipState {
    /// The event that recording a selection the compositor reported at `now`
    /// writes, unless it writes none: sharing is off, nothing of it fits, or it
    /// is what the mesh selected already.
    pub open spec fn capture_event(
        self,
        reps: Seq<RepView>,
        files: Seq<FileName>,
        secret: bool,
        cap: usize,
        default: Span,
        now: Time,
    ) -> Option<EventView> {
        match fitted(reps, cap) {
            Some(fitting) => if !self.pause.capture.running(now) || (self.selected() is Some
                && self.items[self.selected()->0].hash == files::blake3_hash(fitting[0].1)) {
                None
            } else {
                Some(copy_event(fitting, files, secret, None, default))
            },
            None => None,
        }
    }

    /// With a selection the compositor reported at `now` recorded, unless
    /// sharing is off, nothing of it fits, or it is what the mesh selected
    /// already; and what that asks for, or why the log refuses it.
    pub open spec fn capture(
        self,
        reps: Seq<RepView>,
        files: Seq<FileName>,
        secret: bool,
        cap: usize,
        default: Span,
        now: Time,
    ) -> (ClipState, Result<Seq<EffectView>, ClipError>) {
        if !self.pause.capture.running(now) {
            (self, Ok(Seq::empty()))
        } else {
            match fitted(reps, cap) {
                None => (self, Ok(Seq::empty())),
                Some(fitting) => {
                    let event = copy_event(fitting, files, secret, None, default);
                    if self.selected() is Some && self.items[self.selected()->0].hash
                        == files::blake3_hash(fitting[0].1) {
                        (ClipState { applied: self.selected(), ..self }, Ok(Seq::empty()))
                    } else if self.takes(event) {
                        let (recorded, effects) = self.record(event, !secret, now);
                        (recorded, Ok(effects))
                    } else {
                        (
                            self,
                            Err(ClipError::Log(LogError::TooLarge(self.log.limits.payload))),
                        )
                    }
                },
            }
        }
    }
}

impl ClipState {
    /// With a batch of acceptable entries of a peer taken at `now`, and what
    /// that asks for: all of it is folded before the clipboard is touched.
    pub open spec fn accept(self, wires: Seq<WireEntry>, now: Time) -> (
        ClipState,
        Seq<EffectView>,
    ) {
        let (log, changes) = accept_all(self.log, wires, now.whole_millis());
        ClipState { log, ..self }.ingest(changes, now)
    }

    /// Whether this machine can back up the files an entry names: it copied
    /// them, or holds their contents.
    pub open spec fn holds(self, id: EntryId) -> bool {
        self.is_ours(id) || self.ready.contains_key(id)
    }

    /// What picking an entry says: the same copy anew, claiming no more than
    /// this machine can back up.
    pub open spec fn pick_event(self, copy: CopyView, id: EntryId, default: Span) -> EventView {
        copy_event(
            if self.is_ours(id) {
                copy.reps
            } else {
                offer::stripped_reps(copy.reps)
            },
            if self.holds(id) {
                copy.files
            } else {
                Seq::empty()
            },
            copy.secret,
            match copy.ttl {
                Some(ttl) => Some(Span { nanos: (ttl * NANOS_PER_SEC) as u128 }),
                None => None,
            },
            default,
        )
    }

    /// What is fetched once an entry has been picked: the files of a copy made
    /// elsewhere, for the new entry.
    pub open spec fn pick_fetch(self, id: EntryId) -> Seq<EffectView> {
        if self.holds(id) && !self.is_ours(id) {
            seq![EffectView::Fetch(self.log.next_id())]
        } else {
            Seq::empty()
        }
    }
}

/// Taking entries of peers leaves whose log it is, and what it may hold, as
/// they are.
pub proof fn lemma_accept_all_keeps(log: LogState, wires: Seq<WireEntry>, wall: u64)
    ensures
        accept_all(log, wires, wall).0.origin == log.origin,
        accept_all(log, wires, wall).0.limits == log.limits,
    decreases wires.len(),
{
    if wires.len() > 0 {
        lemma_accept_all_keeps(log, wires.drop_last(), wall);
    }
}

/// Reading entries back leaves whose log it is as it is.
pub proof fn lemma_restore_all_keeps(log: LogState, wires: Seq<WireEntry>, wall: u64)
    ensures
        restore_all(log, wires, wall).0.origin == log.origin,
    decreases wires.len(),
{
    if wires.len() > 0 {
        lemma_restore_all_keeps(log, wires.drop_last(), wall);
    }
}

/// A batch is refused when any of its entries is.
pub proof fn lemma_batch(state: ClipState, wires: Seq<WireEntry>, n: int)
    requires
        0 <= n < wires.len(),
        state.batch_refusal(wires) is None,
    ensures
        state.entry_refusal(wires[n].id, wires[n].payload@) is None,
    decreases wires.len(),
{
    if n < wires.len() - 1 {
        lemma_batch(state, wires.drop_last(), n);
    }
}

/// The refusal of a batch is that of its first entries, if they are refused.
pub proof fn lemma_batch_starts(state: ClipState, wires: Seq<WireEntry>, n: int)
    requires
        0 <= n <= wires.len(),
        state.batch_refusal(wires.take(n)) is Some,
    ensures
        state.batch_refusal(wires) == state.batch_refusal(wires.take(n)),
    decreases wires.len() - n,
{
    if n < wires.len() {
        assert(wires.take(n + 1).drop_last() =~= wires.take(n));
        lemma_batch_starts(state, wires, n + 1);
    } else {
        assert(wires.take(n) =~= wires);
    }
}

} // verus!
