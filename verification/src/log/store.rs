//! The entry store: what this machine holds of the log.
//!
//! Pure in-memory state. Mutations report what changed and the caller
//! decides what that means: writing a file, telling peers, putting something
//! on the clipboard.

use super::{
    payload, Clock, EndpointId, Entry, EntryId, Hlc, OrderKey, Payload,
    Watermark, WireEntry, MAX_ENTRY_BYTES,
};
use crate::log;
use crate::log::clock;
use crate::log::clock::wall_millis;
use crate::ordmap::{OrdMap, Ranked};
use vstd::prelude::*;

verus! {

/// What the store is allowed to hold.
#[derive(Clone, Copy, Debug, PartialEq, Eq, Structural)]
pub struct Limits {
    /// How many entries to keep before dropping the oldest.
    pub entries: usize,
    /// How many bytes of payload to keep, same rule.
    pub bytes: usize,
    /// Largest single payload accepted, from here or from a peer.
    pub payload: usize,
}

/// What a mutation did, for the caller to act on.
#[derive(Debug)]
pub enum Change {
    /// The entry is now part of the log.
    Added(Entry),
    /// The entry is gone: expired, evicted, or dropped on request.
    Dropped(EntryId),
}

/// Why the log refuses an entry.
#[derive(Clone, Copy, Debug, PartialEq, Eq, Structural)]
pub enum LogError {
    /// The payload is over the limit, which is this many bytes.
    TooLarge(usize),
    /// A peer sent an entry under our own identity.
    OwnIdentity,
    /// The entry has no sequence number.
    NoSequence,
}

/// The sequence and clock state to persist, so a restart cannot re-issue a
/// name or a reading it already used.
#[derive(Clone, Copy, Debug, PartialEq, Eq, Structural)]
pub struct Checkpoint {
    pub next_seq: u64,
    pub clock: Hlc,
}

impl Default for Checkpoint {
    fn default() -> (checkpoint: Self)
        ensures
            checkpoint == (Checkpoint { next_seq: 0, clock: Hlc { millis: 0, counter: 0 } }),
    {
        Checkpoint { next_seq: 0, clock: Hlc { millis: 0, counter: 0 } }
    }
}

/// The bytes of payload some entries hold together.
pub open spec fn weight(entries: Map<EntryId, Entry>) -> nat
    decreases entries.dom().len(),
    when entries.dom().finite()
{
    if entries.dom().len() == 0 {
        0
    } else {
        let id = entries.dom().choose();
        entries[id].bytes().len() + weight(entries.remove(id))
    }
}

/// Whether both caps hold.
pub open spec fn fits(entries: Map<EntryId, Entry>, limits: Limits) -> bool {
    entries.len() <= limits.entries && weight(entries) <= limits.bytes
}

/// Whether an entry is older than every other.
pub open spec fn is_oldest(entries: Map<EntryId, Entry>, id: EntryId) -> bool {
    &&& entries.contains_key(id)
    &&& forall|other: EntryId| #[trigger]
        entries.contains_key(other) ==> entries[id].order() <= entries[other].order()
}

/// The oldest entry.
pub open spec fn oldest(entries: Map<EntryId, Entry>) -> EntryId {
    choose|id: EntryId| is_oldest(entries, id)
}

/// The entries the caps drop, the oldest first, until both hold.
pub open spec fn evictions(entries: Map<EntryId, Entry>, limits: Limits) -> Seq<EntryId>
    decreases entries.dom().len(),
    when entries.dom().finite()
{
    if fits(entries, limits) || !exists|id: EntryId| is_oldest(entries, id) {
        Seq::empty()
    } else {
        let id = oldest(entries);
        seq![id] + evictions(entries.remove(id), limits)
    }
}

/// The entries the caps leave.
pub open spec fn survivors(entries: Map<EntryId, Entry>, limits: Limits) -> Map<EntryId, Entry>
    decreases entries.dom().len(),
    when entries.dom().finite()
{
    if fits(entries, limits) || !exists|id: EntryId| is_oldest(entries, id) {
        entries
    } else {
        survivors(entries.remove(oldest(entries)), limits)
    }
}

/// Some names without one of them.
pub open spec fn without(ids: Seq<EntryId>, id: EntryId) -> Seq<EntryId>
    decreases ids.len(),
{
    if ids.len() == 0 {
        ids
    } else if ids.last() == id {
        without(ids.drop_last(), id)
    } else {
        without(ids.drop_last(), id).push(ids.last())
    }
}

/// Some names, reported as dropped.
pub open spec fn dropped(ids: Seq<EntryId>) -> Seq<Change> {
    ids.map_values(|id: EntryId| Change::Dropped(id))
}

/// What an arrival reports: the entry, unless the caps dropped it in the same
/// breath, and the other entries they dropped.
pub open spec fn reported(entry: Entry, evicted: Seq<EntryId>) -> Seq<Change> {
    if evicted.contains(entry.id) {
        dropped(without(evicted, entry.id))
    } else {
        seq![Change::Added(entry)] + dropped(without(evicted, entry.id))
    }
}

/// What a log is: what it holds and how far it has got.
#[verifier::ext_equal]
pub struct LogState {
    /// This machine's identity: the only origin it may write under.
    pub origin: EndpointId,
    pub limits: Limits,
    /// The last reading of the clock.
    pub clock: Hlc,
    /// The sequence of the next local entry.
    pub next_seq: u64,
    pub entries: Map<EntryId, Entry>,
    /// How far the log has got in every origin.
    pub have: Map<EndpointId, u64>,
}

impl LogState {
    /// What holds of a log at all times.
    pub open spec fn valid(self) -> bool {
        &&& self.entries.dom().finite()
        &&& self.next_seq >= 1
        &&& self.limits.payload <= MAX_ENTRY_BYTES
        &&& fits(self.entries, self.limits)
        &&& forall|id: EntryId| #[trigger]
            self.entries.contains_key(id) ==> {
                &&& self.entries[id].id == id
                &&& id.seq <= log::mark_at(self.have, id.origin)
                &&& id.origin == self.origin ==> id.seq < self.next_seq
            }
    }

    /// The log once an entry is in it and the caps are enforced, and what
    /// that reports.
    pub open spec fn arrive(self, entry: Entry) -> (LogState, Seq<Change>) {
        let entries = self.entries.insert(entry.id, entry);
        (
            LogState { entries: survivors(entries, self.limits), ..self },
            reported(entry, evictions(entries, self.limits)),
        )
    }

    /// The name of the next local entry.
    pub open spec fn next_id(self) -> EntryId {
        EntryId { origin: self.origin, seq: self.next_seq }
    }

    /// The log once a local entry is written while the wall clock says
    /// `wall`, and what that reports.
    pub open spec fn append(self, bytes: Payload, durable: bool, wall: u64) -> (
        LogState,
        Seq<Change>,
    ) {
        let clock = clock::next_reading(self.clock, wall);
        LogState {
            next_seq: (self.next_seq + 1) as u64,
            have: log::advanced(self.have, self.origin, self.next_seq),
            clock,
            ..self
        }.arrive(Entry { id: self.next_id(), clock, payload: bytes, durable })
    }

    /// Why an entry from a peer is refused, if it is.
    pub open spec fn refusal(self, id: EntryId, size: nat) -> Option<LogError> {
        if id.origin == self.origin {
            Some(LogError::OwnIdentity)
        } else if id.seq == 0 {
            Some(LogError::NoSequence)
        } else if size > self.limits.payload {
            Some(LogError::TooLarge(self.limits.payload))
        } else {
            None
        }
    }

    /// The log once an entry has been seen while the wall clock says `wall`:
    /// the watermark and the clock have moved, the entry is not in yet.
    pub open spec fn seen(self, id: EntryId, clock: Hlc, wall: u64) -> LogState {
        LogState {
            have: log::advanced(self.have, id.origin, id.seq),
            clock: clock::observed(self.clock, clock, wall),
            ..self
        }
    }

    /// The log once an acceptable entry of a peer has been taken while the
    /// wall clock says `wall`, and what that reports. An entry already seen,
    /// or knowingly skipped, changes nothing.
    pub open spec fn accept(self, entry: Entry, wall: u64) -> (LogState, Seq<Change>) {
        if entry.id.seq <= log::mark_at(self.have, entry.id.origin) {
            (self, Seq::empty())
        } else {
            self.seen(entry.id, entry.clock, wall).arrive(entry)
        }
    }

    /// The log once an entry read back from disk is in it while the wall
    /// clock says `wall`, and what that reports.
    pub open spec fn restore(self, entry: Entry, wall: u64) -> (LogState, Seq<Change>) {
        let seen = self.seen(entry.id, entry.clock, wall);
        let next_seq = if entry.id.origin == self.origin && entry.id.seq >= self.next_seq {
            (entry.id.seq + 1) as u64
        } else {
            self.next_seq
        };
        LogState { next_seq, ..seen }.arrive(entry)
    }

    /// The log without an entry. The watermark stays where it is.
    pub open spec fn remove(self, id: EntryId) -> LogState {
        LogState { entries: self.entries.remove(id), ..self }
    }
}

/// Whether a peer that has got as far as `want` is missing an entry.
pub open spec fn missing(entry: Entry, want: Map<EndpointId, u64>) -> bool {
    entry.id.seq > log::mark_at(want, entry.id.origin)
}

/// Whether a list holds entries of a log, and every one of them that is
/// wanted.
pub open spec fn lists(
    list: Seq<&Entry>,
    entries: Map<EntryId, Entry>,
    wanted: spec_fn(Entry) -> bool,
) -> bool {
    &&& forall|i: int|
        0 <= i < list.len() ==> {
            &&& entries.contains_key((#[trigger] list[i]).id)
            &&& *list[i] == entries[list[i].id]
            &&& wanted(*list[i])
        }
    &&& forall|id: EntryId| #[trigger]
        entries.contains_key(id) && wanted(entries[id]) ==> exists|i: int|
            0 <= i < list.len() && *(#[trigger] list[i]) == entries[id]
}

/// The entry a peer or the disk gave us, marked durable or not.
pub open spec fn taken(wire: WireEntry, durable: bool) -> Entry {
    Entry { id: wire.id, clock: wire.clock, payload: log::payload_of(wire.payload@), durable }
}

proof fn lemma_weight_remove(entries: Map<EntryId, Entry>, id: EntryId)
    requires
        entries.dom().finite(),
        entries.contains_key(id),
    ensures
        weight(entries) == entries[id].bytes().len() + weight(entries.remove(id)),
    decreases entries.dom().len(),
{
    let first = entries.dom().choose();
    if first != id {
        let rest = entries.remove(first);
        assert(rest.dom() =~= entries.dom().remove(first));
        lemma_weight_remove(rest, id);
        assert(rest.remove(id) =~= entries.remove(id).remove(first));
        let other = entries.remove(id);
        assert(other.dom() =~= entries.dom().remove(id));
        lemma_weight_remove(other, first);
    }
}

pub proof fn lemma_weight_insert(entries: Map<EntryId, Entry>, entry: Entry)
    requires
        entries.dom().finite(),
    ensures
        weight(entries.insert(entry.id, entry)) == entry.bytes().len() + weight(
            entries.remove(entry.id),
        ),
{
    let after = entries.insert(entry.id, entry);
    lemma_weight_remove(after, entry.id);
    assert(after.remove(entry.id) =~= entries.remove(entry.id));
}

proof fn lemma_weight_bound(entries: Map<EntryId, Entry>)
    requires
        entries.dom().finite(),
        forall|id: EntryId| #[trigger]
            entries.contains_key(id) ==> entries[id].bytes().len() <= u64::MAX,
    ensures
        weight(entries) <= entries.dom().len() * u64::MAX,
    decreases entries.dom().len(),
{
    if entries.dom().len() > 0 {
        let id = entries.dom().choose();
        assert(entries.contains_key(id));
        lemma_weight_bound(entries.remove(id));
    }
}

/// This machine's copy of the log.
pub struct Log {
    origin: EndpointId,
    limits: Limits,
    clock: Clock,
    next_seq: u64,
    entries: OrdMap<EntryId, Entry>,
    /// Every entry again, in clock order, so eviction and history both have
    /// the oldest at hand without sorting.
    order: OrdMap<OrderKey, ()>,
    have: Watermark,
    /// The bytes of payload held.
    bytes: u128,
}

impl View for Log {
    type V = LogState;

    closed spec fn view(&self) -> LogState {
        LogState {
            origin: self.origin,
            limits: self.limits,
            clock: self.clock@,
            next_seq: self.next_seq,
            entries: self.entries@,
            have: self.have@,
        }
    }
}

impl Log {
    /// Whether the parts agree: every entry under its name and in the order,
    /// and nothing else in the order.
    spec fn coherent(&self) -> bool {
        &&& self.entries.wf()
        &&& self.order.wf()
        &&& self.have.wf()
        &&& self.entries@.dom().finite()
        &&& self.bytes == weight(self.entries@)
        &&& forall|id: EntryId| #[trigger]
            self.entries@.contains_key(id) ==> {
                &&& self.entries@[id].id == id
                &&& self.entries@[id].bytes().len() <= u64::MAX
                &&& self.order@.contains_key(
                    OrderKey { clock: self.entries@[id].clock, id },
                )
            }
        &&& forall|key: OrderKey| #[trigger]
            self.order@.contains_key(key) ==> {
                &&& self.entries@.contains_key(key.id)
                &&& self.entries@[key.id].clock == key.clock
            }
    }

    /// What holds of a log between calls.
    pub closed spec fn wf(&self) -> bool {
        self.coherent() && self@.valid()
    }

    /// A well-formed log is a valid one.
    pub proof fn lemma_valid(&self)
        requires
            self.wf(),
        ensures
            self@.valid(),
    {
    }

    /// Opens an empty log for `origin`, resuming from `checkpoint`.
    pub fn new(origin: EndpointId, limits: Limits, checkpoint: Checkpoint) -> (log: Self)
        ensures
            log.wf(),
            log@ == (LogState {
                origin,
                limits: Limits {
                    payload: if limits.payload <= MAX_ENTRY_BYTES {
                        limits.payload
                    } else {
                        MAX_ENTRY_BYTES as usize
                    },
                    ..limits
                },
                clock: checkpoint.clock,
                next_seq: if checkpoint.next_seq >= 1 {
                    checkpoint.next_seq
                } else {
                    1
                },
                entries: Map::empty(),
                have: Map::empty(),
            }),
    {
        let ceiling: usize = MAX_ENTRY_BYTES as usize;
        Log {
            origin,
            limits: Limits {
                entries: limits.entries,
                bytes: limits.bytes,
                payload: if limits.payload <= ceiling {
                    limits.payload
                } else {
                    ceiling
                },
            },
            clock: Clock::resume(checkpoint.clock),
            next_seq: if checkpoint.next_seq >= 1 {
                checkpoint.next_seq
            } else {
                1
            },
            entries: OrdMap::new(),
            order: OrdMap::new(),
            have: Watermark::default(),
            bytes: 0,
        }
    }

    /// This machine's identity.
    pub fn origin(&self) -> (origin: EndpointId)
        ensures
            origin == self@.origin,
    {
        self.origin
    }

    /// The state to persist alongside the entries.
    pub fn checkpoint(&self) -> (checkpoint: Checkpoint)
        ensures
            checkpoint == (Checkpoint { next_seq: self@.next_seq, clock: self@.clock }),
    {
        Checkpoint { next_seq: self.next_seq, clock: self.clock.last() }
    }

    /// What we hold, to announce to peers.
    pub fn have(&self) -> (have: Watermark)
        requires
            self.wf(),
        ensures
            have.wf(),
            have@ == self@.have,
    {
        self.have.clone()
    }

    /// Writes a local entry while the wall clock says `wall`. `durable`
    /// decides whether it may be persisted.
    pub fn append_at(&mut self, bytes: Payload, durable: bool, wall: u64) -> (result: Result<
        (EntryId, Vec<Change>),
        LogError,
    >)
        requires
            old(self).wf(),
            old(self)@.next_seq < u64::MAX,
        ensures
            final(self).wf(),
            match result {
                Ok((id, changes)) => {
                    &&& log::payload_bytes(bytes).len() <= old(self)@.limits.payload
                    &&& id == old(self)@.next_id()
                    &&& (final(self)@, changes@) == old(self)@.append(bytes, durable, wall)
                },
                Err(error) => {
                    &&& log::payload_bytes(bytes).len() > old(self)@.limits.payload
                    &&& error == LogError::TooLarge(old(self)@.limits.payload)
                    &&& final(self)@ == old(self)@
                },
            },
    {
        if bytes.slice().len() > self.limits.payload {
            return Err(LogError::TooLarge(self.limits.payload));
        }
        let id = EntryId { origin: self.origin, seq: self.next_seq };
        self.next_seq = self.next_seq + 1;
        self.have.advance(id.origin, id.seq);
        let clock = self.clock.tick_at(wall);
        let changes = self.insert(Entry { id, clock, payload: bytes, durable });
        Ok((id, changes))
    }

    /// Writes a local entry. `durable` decides whether it may be persisted.
    pub fn append(&mut self, bytes: Payload, durable: bool) -> (result: Result<
        (EntryId, Vec<Change>),
        LogError,
    >)
        requires
            old(self).wf(),
            old(self)@.next_seq < u64::MAX,
        ensures
            final(self).wf(),
            match result {
                Ok((id, changes)) => {
                    &&& log::payload_bytes(bytes).len() <= old(self)@.limits.payload
                    &&& id == old(self)@.next_id()
                    &&& exists|wall: u64|
                        (final(self)@, changes@) == #[trigger] old(self)@.append(
                            bytes,
                            durable,
                            wall,
                        )
                },
                Err(error) => {
                    &&& log::payload_bytes(bytes).len() > old(self)@.limits.payload
                    &&& error == LogError::TooLarge(old(self)@.limits.payload)
                    &&& final(self)@ == old(self)@
                },
            },
    {
        let wall: u64 = wall_millis();
        self.append_at(bytes, durable, wall)
    }

    /// Checks an entry from a peer without taking it.
    ///
    /// Separate from [`Self::accept`] so a caller can check a whole batch
    /// before changing anything.
    pub fn validate(&self, wire: &WireEntry) -> (result: Result<(), LogError>)
        ensures
            match result {
                Ok(_) => self@.refusal(wire.id, wire.payload@.len()) is None,
                Err(error) => self@.refusal(wire.id, wire.payload@.len()) == Some(error),
            },
    {
        // A peer writing under our identity could rewrite our history and
        // make every machine disagree about what our entries are.
        if wire.id.origin == self.origin {
            return Err(LogError::OwnIdentity);
        }
        if wire.id.seq == 0 {
            return Err(LogError::NoSequence);
        }
        if wire.payload.len() > self.limits.payload {
            return Err(LogError::TooLarge(self.limits.payload));
        }
        Ok(())
    }

    /// Takes an entry from a peer while the wall clock says `wall`. An entry
    /// we have already seen, or knowingly skipped, is ignored.
    pub fn accept_at(&mut self, wire: WireEntry, durable: bool, wall: u64) -> (result: Result<
        Vec<Change>,
        LogError,
    >)
        requires
            old(self).wf(),
        ensures
            final(self).wf(),
            match result {
                Ok(changes) => {
                    &&& old(self)@.refusal(wire.id, wire.payload@.len()) is None
                    &&& log::intact(wire.payload@)
                    &&& (final(self)@, changes@) == old(self)@.accept(taken(wire, durable), wall)
                },
                Err(error) => {
                    &&& old(self)@.refusal(wire.id, wire.payload@.len()) == Some(error)
                    &&& final(self)@ == old(self)@
                },
            },
    {
        match self.validate(&wire) {
            Ok(_) => {},
            Err(error) => {
                return Err(error);
            },
        }
        let bytes = payload(wire.payload);
        let ghost before = self.have@;
        if !self.have.advance(wire.id.origin, wire.id.seq) {
            assert(self.have@ =~= before);
            return Ok(Vec::new());
        }
        self.clock.observe_at(wire.clock, wall);
        let changes = self.insert(
            Entry { id: wire.id, clock: wire.clock, payload: bytes, durable },
        );
        Ok(changes)
    }

    /// Takes an entry from a peer. An entry we have already seen, or
    /// knowingly skipped, is ignored.
    pub fn accept(&mut self, wire: WireEntry, durable: bool) -> (result: Result<
        Vec<Change>,
        LogError,
    >)
        requires
            old(self).wf(),
        ensures
            final(self).wf(),
            match result {
                Ok(changes) => {
                    &&& old(self)@.refusal(wire.id, wire.payload@.len()) is None
                    &&& log::intact(wire.payload@)
                    &&& exists|wall: u64|
                        (final(self)@, changes@) == #[trigger] old(self)@.accept(
                            taken(wire, durable),
                            wall,
                        )
                },
                Err(error) => {
                    &&& old(self)@.refusal(wire.id, wire.payload@.len()) == Some(error)
                    &&& final(self)@ == old(self)@
                },
            },
    {
        let wall: u64 = wall_millis();
        self.accept_at(wire, durable, wall)
    }

    /// Re-inserts an entry read back from disk while the wall clock says
    /// `wall`. Unlike [`Self::accept`] this ignores the watermark, since
    /// files come back in whatever order the directory lists them.
    pub fn restore_at(&mut self, wire: WireEntry, wall: u64) -> (changes: Vec<Change>)
        requires
            old(self).wf(),
            wire.id.origin == old(self)@.origin ==> wire.id.seq < u64::MAX,
        ensures
            final(self).wf(),
            log::intact(wire.payload@),
            (final(self)@, changes@) == old(self)@.restore(taken(wire, true), wall),
    {
        self.have.advance(wire.id.origin, wire.id.seq);
        self.clock.observe_at(wire.clock, wall);
        if wire.id.origin == self.origin && wire.id.seq >= self.next_seq {
            self.next_seq = wire.id.seq + 1;
        }
        self.insert(
            Entry { id: wire.id, clock: wire.clock, payload: payload(wire.payload), durable: true },
        )
    }

    /// Re-inserts an entry read back from disk. Unlike [`Self::accept`] this
    /// ignores the watermark, since files come back in whatever order the
    /// directory lists them.
    pub fn restore(&mut self, wire: WireEntry) -> (changes: Vec<Change>)
        requires
            old(self).wf(),
            wire.id.origin == old(self)@.origin ==> wire.id.seq < u64::MAX,
        ensures
            final(self).wf(),
            log::intact(wire.payload@),
            exists|wall: u64|
                (final(self)@, changes@) == #[trigger] old(self)@.restore(
                    taken(wire, true),
                    wall,
                ),
    {
        let wall: u64 = wall_millis();
        self.restore_at(wire, wall)
    }

    /// Drops an entry. The watermark stays where it is, so the entry is not
    /// fetched again from a peer that still holds it.
    pub fn remove(&mut self, id: EntryId) -> (change: Option<Change>)
        requires
            old(self).wf(),
        ensures
            final(self).wf(),
            final(self)@ == old(self)@.remove(id),
            change == (if old(self)@.entries.contains_key(id) {
                Some(Change::Dropped(id))
            } else {
                None
            }),
    {
        proof {
            lemma_fits_remove(self.entries@, self.limits, id);
        }
        self.take(id)
    }

    /// Drops an entry, whether or not the caps hold.
    fn take(&mut self, id: EntryId) -> (change: Option<Change>)
        requires
            old(self).coherent(),
        ensures
            final(self).coherent(),
            final(self)@ == old(self)@.remove(id),
            change == (if old(self)@.entries.contains_key(id) {
                Some(Change::Dropped(id))
            } else {
                None
            }),
    {
        let ghost before = self.entries@;
        match self.entries.remove(&id) {
            None => {
                assert(self.entries@ =~= before);
                None
            },
            Some(entry) => {
                proof {
                    lemma_weight_remove(before, id);
                }
                self.order.remove(&entry.order_key());
                self.bytes = self.bytes - entry.payload.slice().len() as u128;
                Some(Change::Dropped(id))
            },
        }
    }

    /// One entry by name.
    pub fn get(&self, id: EntryId) -> (entry: Option<&Entry>)
        requires
            self.wf(),
        ensures
            match entry {
                Some(entry) => self@.entries.contains_key(id) && *entry == self@.entries[id],
                None => !self@.entries.contains_key(id),
            },
    {
        self.entries.get(&id)
    }

    /// Every entry, newest first.
    pub fn newest_first(&self) -> (list: Vec<&Entry>)
        requires
            self.wf(),
        ensures
            lists(list@, self@.entries, |entry: Entry| true),
            list@.len() == self@.entries.len(),
            forall|i: int, j: int|
                0 <= i < j < list@.len() ==> (#[trigger] list@[i]).order() > (
                #[trigger] list@[j]).order(),
    {
        let mut list: Vec<&Entry> = Vec::new();
        let n: usize = self.order.len();
        let ghost pairs = self.order.pairs();
        let ghost held = self.entries@;
        proof {
            self.order.lemma_pairs();
        }
        let mut i: usize = n;
        while i > 0
            invariant
                i <= n,
                self.wf(),
                n == pairs.len(),
                pairs == self.order.pairs(),
                held == self.entries@,
                list@.len() == n - i,
                forall|j: int|
                    0 <= j < list@.len() ==> {
                        let key = pairs[n - 1 - j].0;
                        held.contains_key(key.id) && *(#[trigger] list@[j]) == held[key.id]
                            && held[key.id].clock == key.clock
                    },
            decreases i,
        {
            i -= 1;
            let key = self.order.key_at(i);
            proof {
                self.order.lemma_pairs();
                assert(self.order@.contains_key(pairs[i as int].0));
            }
            match self.entries.get(&key.id) {
                Some(entry) => {
                    list.push(entry);
                },
                None => {},
            }
        }
        proof {
            self.lemma_order_covers(list@);
        }
        list
    }

    /// The entries in clock order, read backwards, are every entry, newest
    /// first.
    proof fn lemma_order_covers(&self, list: Seq<&Entry>)
        requires
            self.wf(),
            list.len() == self.order.pairs().len(),
            forall|j: int|
                0 <= j < list.len() ==> {
                    let key = self.order.pairs()[list.len() - 1 - j].0;
                    self.entries@.contains_key(key.id) && *(#[trigger] list[j])
                        == self.entries@[key.id] && self.entries@[key.id].clock == key.clock
                },
        ensures
            lists(list, self@.entries, |entry: Entry| true),
            list.len() == self@.entries.len(),
            forall|i: int, j: int|
                0 <= i < j < list.len() ==> (#[trigger] list[i]).order() > (
                #[trigger] list[j]).order(),
    {
        let held = self.entries@;
        let pairs = self.order.pairs();
        let n = list.len() as int;
        self.order.lemma_pairs();
        self.entries.lemma_pairs();
        assert forall|id: EntryId| #[trigger] held.contains_key(id) implies exists|i: int|
            0 <= i < list.len() && *(#[trigger] list[i]) == held[id] by {
            let key = OrderKey { clock: held[id].clock, id };
            assert(self.order@.contains_key(key));
            let i = choose|i: int|
                0 <= i < pairs.len() && (#[trigger] pairs[i]) == (key, self.order@[key]);
            assert(*list[n - 1 - i] == held[id]);
        }
        assert forall|i: int, j: int| 0 <= i < j < list.len() implies (#[trigger] list[i]).order() > (
        #[trigger] list[j]).order() by {
            assert(pairs[n - 1 - j].0.rank() < pairs[n - 1 - i].0.rank());
        }
        let of = |key: OrderKey| key.id;
        assert(held.dom() =~= self.order@.dom().map(of)) by {
            assert forall|id: EntryId| held.contains_key(id) implies #[trigger] self.order@.dom().map(
                of,
            ).contains(id) by {
                let key = OrderKey { clock: held[id].clock, id };
                assert(self.order@.contains_key(key));
                assert(of(key) == id);
            }
        }
        assert(vstd::relations::injective_on(of, self.order@.dom())) by {
            assert forall|a: OrderKey, b: OrderKey|
                self.order@.dom().contains(a) && self.order@.dom().contains(b) && #[trigger] of(a)
                    == #[trigger] of(b) implies a == b by {
                assert(self.order@.contains_key(a) && self.order@.contains_key(b));
            }
        }
        vstd::set_lib::lemma_map_size(self.order@.dom(), held.dom(), of);
    }

    /// The entries a peer at `want` is missing, in log order so the receiver
    /// applies each origin's entries oldest first.
    pub fn since(&self, want: &Watermark) -> (list: Vec<&Entry>)
        requires
            self.wf(),
            want.wf(),
        ensures
            lists(list@, self@.entries, |entry: Entry| missing(entry, want@)),
            forall|i: int, j: int|
                0 <= i < j < list@.len() ==> (#[trigger] list@[i]).id.rank() < (
                #[trigger] list@[j]).id.rank(),
    {
        let mut list: Vec<&Entry> = Vec::new();
        let n: usize = self.entries.len();
        let ghost pairs = self.entries.pairs();
        let ghost held = self.entries@;
        proof {
            self.entries.lemma_pairs();
        }
        let mut i: usize = 0;
        while i < n
            invariant
                i <= n,
                self.wf(),
                want.wf(),
                n == pairs.len(),
                pairs == self.entries.pairs(),
                held == self.entries@,
                forall|j: int|
                    0 <= j < list@.len() ==> {
                        &&& held.contains_key((#[trigger] list@[j]).id)
                        &&& *list@[j] == held[list@[j].id]
                        &&& missing(*list@[j], want@)
                    },
                forall|j: int, k: int|
                    0 <= j < list@.len() && i <= k < n ==> (#[trigger] list@[j]).id.rank() < (
                    #[trigger] pairs[k]).0.rank(),
                forall|j: int, k: int|
                    0 <= j < k < list@.len() ==> (#[trigger] list@[j]).id.rank() < (
                    #[trigger] list@[k]).id.rank(),
                forall|k: int|
                    0 <= k < i && missing((#[trigger] pairs[k]).1, want@) ==> exists|j: int|
                        0 <= j < list@.len() && *(#[trigger] list@[j]) == pairs[k].1,
            decreases n - i,
        {
            let entry = self.entries.value_at(i);
            let ghost before = list@;
            proof {
                self.entries.lemma_pairs();
                assert(held.contains_key(pairs[i as int].0));
            }
            if entry.id.seq > want.get(&entry.id.origin) {
                list.push(entry);
                assert(*list@[before.len() as int] == pairs[i as int].1);
            }
            assert forall|k: int| 0 <= k < i + 1 && missing((#[trigger] pairs[k]).1, want@) implies exists|
                j: int,
            |
                0 <= j < list@.len() && *(#[trigger] list@[j]) == pairs[k].1 by {
                if k < i {
                    let j = choose|j: int| 0 <= j < before.len() && *(#[trigger] before[j]) == pairs[k].1;
                    assert(*list@[j] == pairs[k].1);
                }
            }
            i += 1;
        }
        assert forall|id: EntryId| #[trigger] held.contains_key(id) && missing(held[id], want@) implies exists|
            j: int,
        |
            0 <= j < list@.len() && *(#[trigger] list@[j]) == held[id] by {
            self.entries.lemma_pairs();
            let k = choose|k: int|
                0 <= k < pairs.len() && (#[trigger] pairs[k]) == (id, held[id]);
            assert(missing(pairs[k].1, want@));
        }
        list
    }

    /// Adds an entry and enforces the caps.
    ///
    /// An entry that the caps evict in the same breath (a very old one
    /// arriving into a full log) is reported as neither added nor dropped: as
    /// far as the caller is concerned it never landed.
    fn insert(&mut self, entry: Entry) -> (changes: Vec<Change>)
        requires
            old(self).coherent(),
            old(self)@.limits.payload <= MAX_ENTRY_BYTES,
            old(self)@.next_seq >= 1,
            entry.id.seq <= log::mark_at(old(self)@.have, entry.id.origin),
            entry.id.origin == old(self)@.origin ==> entry.id.seq < old(self)@.next_seq,
            forall|id: EntryId| #[trigger]
                old(self)@.entries.contains_key(id) ==> {
                    &&& id.seq <= log::mark_at(old(self)@.have, id.origin)
                    &&& id.origin == old(self)@.origin ==> id.seq < old(self)@.next_seq
                },
        ensures
            final(self).wf(),
            (final(self)@, changes@) == old(self)@.arrive(entry),
    {
        let id = entry.id;
        self.take(id);
        let ghost held = self.entries@;
        let length: usize = entry.payload.slice().len();
        proof {
            lemma_weight_insert(held, entry);
            assert(held.remove(id) =~= held);
            lemma_weight_bound(held);
            self.entries.lemma_pairs();
        }
        let count: usize = self.entries.len();
        self.bytes = self.bytes + length as u128;
        self.order.insert(entry.order_key(), ());
        self.entries.insert(id, entry.clone());
        let ghost all = self.entries@;
        assert(all =~= old(self)@.entries.insert(id, entry));
        let evicted = self.evict();
        proof {
            lemma_survivors(all, self.limits);
        }
        let mut changes: Vec<Change> = Vec::new();
        if !contains(&evicted, id) {
            changes.push(Change::Added(entry));
        }
        let ghost head = changes@;
        let mut i: usize = 0;
        assert(dropped(without(evicted@.take(0), id)) =~= Seq::<Change>::empty());
        while i < evicted.len()
            invariant
                i <= evicted.len(),
                changes@ == head + dropped(without(evicted@.take(i as int), id)),
            decreases evicted.len() - i,
        {
            let next = evicted[i];
            assert(evicted@.take(i + 1).drop_last() =~= evicted@.take(i as int));
            if next != id {
                changes.push(Change::Dropped(next));
            }
            i += 1;
            assert(changes@ =~= head + dropped(without(evicted@.take(i as int), id)));
        }
        assert(evicted@.take(i as int) =~= evicted@);
        assert(changes@ =~= reported(entry, evicted@));
        assert forall|id: EntryId| #[trigger] self.entries@.contains_key(id) implies {
            &&& self.entries@[id].id == id
            &&& id.seq <= log::mark_at(self.have@, id.origin)
            &&& id.origin == self.origin ==> id.seq < self.next_seq
        } by {
            assert(all.contains_key(id));
            if id != entry.id {
                assert(old(self)@.entries.contains_key(id));
            }
        }
        changes
    }

    /// The first entry in the order is the oldest.
    proof fn lemma_oldest_comes_first(&self)
        requires
            self.coherent(),
            self.entries@.dom().len() > 0,
        ensures
            self.order.pairs().len() > 0,
            self.entries@.contains_key(self.order.pairs()[0].0.id),
            is_oldest(self.entries@, self.order.pairs()[0].0.id),
            oldest(self.entries@) == self.order.pairs()[0].0.id,
    {
        let held = self.entries@;
        self.order.lemma_pairs();
        let some = held.dom().choose();
        assert(held.contains_key(some));
        assert(self.order@.contains_key(OrderKey { clock: held[some].clock, id: some }));
        lemma_first_is_oldest(held, self.order.pairs(), self.order@);
        lemma_oldest(held, self.order.pairs()[0].0.id);
    }

    /// Drops the oldest entries until both caps hold.
    #[verifier::spinoff_prover]
    fn evict(&mut self) -> (evicted: Vec<EntryId>)
        requires
            old(self).coherent(),
        ensures
            final(self).coherent(),
            final(self)@ == (LogState {
                entries: survivors(old(self)@.entries, old(self)@.limits),
                ..old(self)@
            }),
            evicted@ == evictions(old(self)@.entries, old(self)@.limits),
    {
        let mut evicted: Vec<EntryId> = Vec::new();
        let ghost all = self.entries@;
        let limits = self.limits;
        assert(evicted@ + evictions(all, limits) =~= evictions(all, limits));
        while self.entries.len() > limits.entries || self.bytes > limits.bytes as u128
            invariant
                self.coherent(),
                limits == self.limits,
                self@ == (LogState { entries: self.entries@, ..old(self)@ }),
                limits == old(self)@.limits,
                all == old(self)@.entries,
                evicted@ + evictions(self.entries@, limits) == evictions(all, limits),
                survivors(self.entries@, limits) == survivors(all, limits),
            decreases self.entries@.dom().len(),
        {
            let ghost held = self.entries@;
            proof {
                self.entries.lemma_pairs();
                assert(!fits(held, limits));
                assert(held.dom().len() > 0);
                self.lemma_oldest_comes_first();
            }
            let key = self.order.key_at(0);
            proof {
                lemma_evict_step(evicted@, held, limits, key.id);
            }
            self.take(key.id);
            evicted.push(key.id);
        }
        proof {
            self.entries.lemma_pairs();
            assert(fits(self.entries@, limits));
            assert(evicted@ + evictions(self.entries@, limits) =~= evicted@);
        }
        evicted
    }
}

/// Whether a name is among some.
fn contains(ids: &Vec<EntryId>, id: EntryId) -> (r: bool)
    ensures
        r == ids@.contains(id),
{
    let mut i: usize = 0;
    while i < ids.len()
        invariant
            i <= ids.len(),
            forall|j: int| 0 <= j < i ==> #[trigger] ids@[j] != id,
        decreases ids.len() - i,
    {
        if ids[i] == id {
            assert(ids@[i as int] == id);
            return true;
        }
        i += 1;
    }
    false
}

proof fn lemma_first_is_oldest(
    entries: Map<EntryId, Entry>,
    pairs: Seq<(OrderKey, ())>,
    order: Map<OrderKey, ()>,
)
    requires
        pairs.len() > 0,
        crate::ordmap::ascending(pairs),
        forall|i: int| 0 <= i < pairs.len() ==> order.contains_key((#[trigger] pairs[i]).0),
        forall|key: OrderKey| #[trigger]
            order.contains_key(key) ==> exists|i: int|
                0 <= i < pairs.len() && (#[trigger] pairs[i]) == (key, order[key]),
        forall|id: EntryId| #[trigger]
            entries.contains_key(id) ==> entries[id].id == id && order.contains_key(
                OrderKey { clock: entries[id].clock, id },
            ),
        forall|key: OrderKey| #[trigger]
            order.contains_key(key) ==> entries.contains_key(key.id) && entries[key.id].clock
                == key.clock,
    ensures
        is_oldest(entries, pairs[0].0.id),
{
    let first = pairs[0].0;
    assert(order.contains_key(first));
    assert forall|other: EntryId| #[trigger] entries.contains_key(other) implies entries[first.id].order()
        <= entries[other].order() by {
        let key = OrderKey { clock: entries[other].clock, id: other };
        assert(order.contains_key(key));
        let i = choose|i: int| 0 <= i < pairs.len() && (#[trigger] pairs[i]) == (key, order[key]);
        if i > 0 {
            assert(pairs[0].0.rank() < pairs[i].0.rank());
        }
    }
}

/// There is only one oldest entry.
proof fn lemma_oldest(entries: Map<EntryId, Entry>, id: EntryId)
    requires
        is_oldest(entries, id),
        forall|id: EntryId| #[trigger] entries.contains_key(id) ==> entries[id].id == id,
    ensures
        oldest(entries) == id,
{
    let other = oldest(entries);
    assert(is_oldest(entries, other));
    assert(entries[id].order() == entries[other].order());
    OrderKey::rank_is_unique(
        OrderKey { clock: entries[id].clock, id },
        OrderKey { clock: entries[other].clock, id: other },
    );
}

/// What dropping the oldest entry leaves to be dropped.
proof fn lemma_evict_step(
    evicted: Seq<EntryId>,
    entries: Map<EntryId, Entry>,
    limits: Limits,
    id: EntryId,
)
    requires
        entries.dom().finite(),
        !fits(entries, limits),
        is_oldest(entries, id),
        oldest(entries) == id,
    ensures
        evicted.push(id) + evictions(entries.remove(id), limits) == evicted + evictions(
            entries,
            limits,
        ),
        survivors(entries.remove(id), limits) == survivors(entries, limits),
        entries.remove(id).dom().len() < entries.dom().len(),
{
    assert(evicted.push(id) + evictions(entries.remove(id), limits) =~= evicted + (seq![id]
        + evictions(entries.remove(id), limits)));
}

/// Dropping an entry keeps the caps.
pub proof fn lemma_fits_remove(entries: Map<EntryId, Entry>, limits: Limits, id: EntryId)
    requires
        entries.dom().finite(),
        fits(entries, limits),
    ensures
        fits(entries.remove(id), limits),
{
    if entries.contains_key(id) {
        lemma_weight_remove(entries, id);
    } else {
        assert(entries.remove(id) =~= entries);
    }
}

/// Some entries have an oldest one, unless there are none.
proof fn lemma_has_oldest(entries: Map<EntryId, Entry>)
    requires
        entries.dom().finite(),
        entries.dom().len() > 0,
    ensures
        exists|id: EntryId| is_oldest(entries, id),
    decreases entries.dom().len(),
{
    let some = entries.dom().choose();
    assert(entries.contains_key(some));
    let rest = entries.remove(some);
    if rest.dom().len() == 0 {
        assert forall|other: EntryId| #[trigger] entries.contains_key(other) implies entries[some].order()
            <= entries[other].order() by {
            if other != some {
                assert(rest.dom().contains(other));
            }
        }
        assert(is_oldest(entries, some));
    } else {
        lemma_has_oldest(rest);
        let id = choose|id: EntryId| is_oldest(rest, id);
        let first = if entries[some].order() <= entries[id].order() {
            some
        } else {
            id
        };
        assert forall|other: EntryId| #[trigger] entries.contains_key(other) implies entries[first].order()
            <= entries[other].order() by {
            if other != some {
                assert(rest.contains_key(other));
            }
        }
        assert(is_oldest(entries, first));
    }
}

/// What the caps leave fits them, and is part of what there was.
pub proof fn lemma_survivors(entries: Map<EntryId, Entry>, limits: Limits)
    requires
        entries.dom().finite(),
    ensures
        fits(survivors(entries, limits), limits),
        survivors(entries, limits).dom().finite(),
        survivors(entries, limits).submap_of(entries),
    decreases entries.dom().len(),
{
    if !fits(entries, limits) {
        if entries.dom().len() == 0 {
            assert(weight(entries) == 0);
        } else {
            lemma_has_oldest(entries);
            let id = oldest(entries);
            lemma_survivors(entries.remove(id), limits);
        }
    }
}

/// An entry is among those the caps drop exactly when it was there and is not
/// among those they leave.
pub proof fn lemma_evictions(entries: Map<EntryId, Entry>, limits: Limits, id: EntryId)
    requires
        entries.dom().finite(),
    ensures
        evictions(entries, limits).contains(id) == (entries.contains_key(id) && !survivors(
            entries,
            limits,
        ).contains_key(id)),
    decreases entries.dom().len(),
{
    if !fits(entries, limits) && exists|id: EntryId| is_oldest(entries, id) {
        let first = oldest(entries);
        assert(is_oldest(entries, first));
        let rest = entries.remove(first);
        lemma_evictions(rest, limits, id);
        lemma_survivors(rest, limits);
        let all = evictions(entries, limits);
        let more = evictions(rest, limits);
        assert(all[0] == first);
        if more.contains(id) {
            let i = choose|i: int| 0 <= i < more.len() && more[i] == id;
            assert(all[i + 1] == id);
        }
        if all.contains(id) && id != first {
            let i = choose|i: int| 0 <= i < all.len() && all[i] == id;
            assert(more[i - 1] == id);
        }
    }
}

/// Leaving a name out of some names leaves it out.
pub proof fn lemma_left_out(ids: Seq<EntryId>, id: EntryId)
    ensures
        !without(ids, id).contains(id),
    decreases ids.len(),
{
    if ids.len() > 0 {
        let rest = without(ids.drop_last(), id);
        lemma_left_out(ids.drop_last(), id);
        if ids.last() != id {
            let all = rest.push(ids.last());
            if all.contains(id) {
                let i = choose|i: int| 0 <= i < all.len() && all[i] == id;
                assert(rest[i] == id);
            }
        }
    }
}

/// A local entry gets a name that no entry of this machine has had: names are
/// numbered upwards, and never reused.
pub proof fn names_are_never_reused(
    log: LogState,
    bytes: Payload,
    durable: bool,
    wall: u64,
    id: EntryId,
)
    requires
        log.valid(),
        log.next_seq < u64::MAX,
        id.origin == log.origin,
        log.entries.contains_key(id) || id.seq < log.next_seq,
    ensures
        log.next_id() != id,
        log.append(bytes, durable, wall).0.next_id().seq == log.next_id().seq + 1,
{
}

/// Receiving an entry twice is a no-op the second time.
pub proof fn entries_are_taken_once(log: LogState, entry: Entry, wall: u64, later: u64)
    ensures
        log.accept(entry, wall).0.accept(entry, later) == (
            log.accept(entry, wall).0,
            Seq::<Change>::empty(),
        ),
{
}

/// An entry that was dropped is not taken back from a peer that still holds
/// it.
pub proof fn a_dropped_entry_does_not_come_back(log: LogState, entry: Entry, wall: u64)
    requires
        log.valid(),
        log.entries.contains_key(entry.id),
    ensures
        log.remove(entry.id).accept(entry, wall) == (log.remove(entry.id), Seq::<Change>::empty()),
{
}

/// Nothing a log holds is missing from its own watermark, so a peer that has
/// caught up with it is sent nothing.
pub proof fn a_peer_that_caught_up_is_sent_nothing(log: LogState, entry: Entry)
    requires
        log.valid(),
        log.entries.contains_key(entry.id),
        log.entries[entry.id] == entry,
    ensures
        !missing(entry, log.have),
{
}

/// The caps drop the oldest entries: what goes is older than what stays.
pub proof fn the_oldest_entries_go_first(
    entries: Map<EntryId, Entry>,
    limits: Limits,
    gone: EntryId,
    kept: EntryId,
)
    requires
        entries.dom().finite(),
        entries.contains_key(gone),
        !survivors(entries, limits).contains_key(gone),
        survivors(entries, limits).contains_key(kept),
    ensures
        entries[gone].order() <= entries[kept].order(),
    decreases entries.dom().len(),
{
    lemma_survivors(entries, limits);
    if !fits(entries, limits) && exists|id: EntryId| is_oldest(entries, id) {
        let id = oldest(entries);
        assert(is_oldest(entries, id));
        assert(entries.contains_key(kept));
        if gone != id {
            lemma_survivors(entries.remove(id), limits);
            the_oldest_entries_go_first(entries.remove(id), limits, gone, kept);
        }
    }
}

/// The caps drop nothing while both hold, and no more than it takes: with the
/// last entry dropped still there, one of them would not hold.
pub proof fn no_more_is_dropped_than_it_takes(entries: Map<EntryId, Entry>, limits: Limits)
    requires
        entries.dom().finite(),
    ensures
        fits(entries, limits) ==> survivors(entries, limits) == entries,
        evictions(entries, limits).len() > 0 ==> {
            let last = evictions(entries, limits).last();
            &&& entries.contains_key(last)
            &&& !survivors(entries, limits).contains_key(last)
            &&& !fits(survivors(entries, limits).insert(last, entries[last]), limits)
        },
    decreases entries.dom().len(),
{
    if !fits(entries, limits) && exists|id: EntryId| is_oldest(entries, id) {
        let id = oldest(entries);
        assert(is_oldest(entries, id));
        let rest = entries.remove(id);
        no_more_is_dropped_than_it_takes(rest, limits);
        lemma_survivors(rest, limits);
        if evictions(rest, limits).len() == 0 {
            assert(fits(rest, limits)) by {
                if !fits(rest, limits) {
                    if rest.dom().len() == 0 {
                        assert(weight(rest) == 0);
                    } else {
                        lemma_has_oldest(rest);
                    }
                }
            }
            assert(survivors(rest, limits) == rest);
            assert(rest.insert(id, entries[id]) =~= entries);
            assert(evictions(entries, limits).last() == id);
        } else {
            assert(evictions(entries, limits).last() == evictions(rest, limits).last());
        }
    }
}

/// Whether some entries are the newest of others: part of them, with every one
/// that was left out older than all of them.
pub open spec fn are_newest(kept: Map<EntryId, Entry>, all: Map<EntryId, Entry>) -> bool {
    &&& forall|id: EntryId| #[trigger]
        kept.contains_key(id) ==> all.contains_key(id) && kept[id] == all[id]
    &&& forall|id: EntryId, other: EntryId|
        #![trigger kept.contains_key(id), all.contains_key(other)]
        kept.contains_key(id) && all.contains_key(other) && !kept.contains_key(other)
            ==> all[other].order() < all[id].order()
}

/// Whether some names go from the oldest entry to the newest.
pub open spec fn oldest_first(ids: Seq<EntryId>, entries: Map<EntryId, Entry>) -> bool {
    forall|i: int, j: int|
        0 <= i < j < ids.len() ==> entries[#[trigger] ids[i]].order() < entries[#[trigger] ids[j]].order()
}

/// Whether entries stand under their own names.
pub open spec fn named(entries: Map<EntryId, Entry>) -> bool {
    forall|id: EntryId| #[trigger] entries.contains_key(id) ==> entries[id].id == id
}

/// No two entries are equally old.
proof fn lemma_order_is_strict(entries: Map<EntryId, Entry>, a: EntryId, b: EntryId)
    requires
        named(entries),
        entries.contains_key(a),
        entries.contains_key(b),
        a != b,
    ensures
        entries[a].order() != entries[b].order(),
{
    if entries[a].order() == entries[b].order() {
        OrderKey::rank_is_unique(
            OrderKey { clock: entries[a].clock, id: a },
            OrderKey { clock: entries[b].clock, id: b },
        );
    }
}

/// What the caps leave are the newest entries, and what they drop goes from the
/// oldest on.
proof fn lemma_newest_survive(entries: Map<EntryId, Entry>, limits: Limits)
    requires
        entries.dom().finite(),
        named(entries),
    ensures
        are_newest(survivors(entries, limits), entries),
        oldest_first(evictions(entries, limits), entries),
    decreases entries.dom().len(),
{
    if !fits(entries, limits) && exists|id: EntryId| is_oldest(entries, id) {
        let first = oldest(entries);
        assert(is_oldest(entries, first));
        let rest = entries.remove(first);
        let kept = survivors(entries, limits);
        lemma_newest_survive(rest, limits);
        assert forall|id: EntryId, other: EntryId|
            #![trigger kept.contains_key(id), entries.contains_key(other)]
            kept.contains_key(id) && entries.contains_key(other) && !kept.contains_key(
                other,
            ) implies entries[other].order() < entries[id].order() by {
            assert(rest.contains_key(id));
            if other == first {
                lemma_order_is_strict(entries, first, id);
                assert(entries.contains_key(id));
            } else {
                assert(rest.contains_key(other));
            }
        }
        assert forall|id: EntryId| #[trigger] kept.contains_key(id) implies entries.contains_key(id)
            && kept[id] == entries[id] by {
            assert(rest.contains_key(id));
        }
        let ids = evictions(entries, limits);
        let more = evictions(rest, limits);
        assert forall|i: int, j: int| 0 <= i < j < ids.len() implies entries[#[trigger] ids[i]].order()
            < entries[#[trigger] ids[j]].order() by {
            assert(ids[j] == more[j - 1]);
            assert(more.contains(more[j - 1]));
            lemma_evictions(rest, limits, more[j - 1]);
            assert(rest.contains_key(ids[j]));
            if i == 0 {
                assert(entries.contains_key(ids[j]));
                lemma_order_is_strict(entries, first, ids[j]);
            } else {
                assert(ids[i] == more[i - 1]);
                assert(more.contains(more[i - 1]));
                lemma_evictions(rest, limits, more[i - 1]);
            }
        }
    }
}

/// Of the newest entries that fit the caps, what the caps leave holds all.
proof fn lemma_survivors_are_most(
    entries: Map<EntryId, Entry>,
    limits: Limits,
    other: Map<EntryId, Entry>,
)
    requires
        entries.dom().finite(),
        are_newest(other, entries),
        fits(other, limits),
    ensures
        forall|id: EntryId| #[trigger]
            other.contains_key(id) ==> survivors(entries, limits).contains_key(id),
    decreases entries.dom().len(),
{
    if !fits(entries, limits) {
        if entries.dom().len() == 0 {
            assert(weight(entries) == 0);
        } else {
            lemma_has_oldest(entries);
            let first = oldest(entries);
            assert(is_oldest(entries, first));
            if other.contains_key(first) {
                assert forall|id: EntryId| #[trigger] entries.contains_key(id) implies other.contains_key(
                    id,
                ) by {
                    if !other.contains_key(id) {
                        assert(entries[id].order() < entries[first].order());
                    }
                }
                assert(other =~= entries);
            }
            let rest = entries.remove(first);
            assert(are_newest(other, rest));
            lemma_survivors_are_most(rest, limits, other);
        }
    }
}

/// Leaving a name out of some names keeps the others, as they are ordered.
proof fn lemma_others_stay(ids: Seq<EntryId>, id: EntryId, entries: Map<EntryId, Entry>)
    requires
        oldest_first(ids, entries),
    ensures
        oldest_first(without(ids, id), entries),
        forall|other: EntryId| #[trigger]
            without(ids, id).contains(other) == (ids.contains(other) && other != id),
    decreases ids.len(),
{
    let left = without(ids, id);
    if ids.len() > 0 {
        let less = ids.drop_last();
        let rest = without(less, id);
        lemma_others_stay(less, id, entries);
        lemma_left_out(ids, id);
        assert forall|other: EntryId| #[trigger] left.contains(other) == (ids.contains(other)
            && other != id) by {
            if left.contains(other) {
                let i = choose|i: int| 0 <= i < left.len() && left[i] == other;
                if i < rest.len() {
                    assert(left[i] == rest[i]);
                    assert(rest.contains(other));
                    assert(less.contains(other));
                    let k = choose|k: int| 0 <= k < less.len() && less[k] == other;
                    assert(ids[k] == other);
                } else {
                    assert(ids[ids.len() - 1] == other);
                }
            }
            if ids.contains(other) && other != id {
                let k = choose|k: int| 0 <= k < ids.len() && ids[k] == other;
                if k < ids.len() - 1 {
                    assert(less[k] == other);
                    assert(less.contains(other));
                    assert(rest.contains(other));
                    let i = choose|i: int| 0 <= i < rest.len() && rest[i] == other;
                    assert(left[i] == other);
                } else {
                    assert(left[left.len() - 1] == other);
                }
            }
        }
        assert forall|i: int, j: int| 0 <= i < j < left.len() implies entries[#[trigger] left[i]].order()
            < entries[#[trigger] left[j]].order() by {
            assert(left[i] == rest[i]);
            if j < rest.len() {
                assert(left[j] == rest[j]);
            } else {
                assert(rest.contains(rest[i]));
                let k = choose|k: int| 0 <= k < less.len() && less[k] == rest[i];
                assert(ids[k] == left[i] && ids[ids.len() - 1] == left[j]);
            }
        }
    } else {
        assert(!left.contains(id) && !ids.contains(id));
    }
}

/// An entry that arrives leaves the log with the newest entries, as many as
/// both caps allow: every other set of the newest that fits is part of it. It
/// is reported as added exactly when it is among them; every entry that had to
/// go for it is reported as dropped, the oldest first, and it never is itself.
pub proof fn the_newest_that_fit_are_kept(log: LogState, entry: Entry)
    requires
        log.valid(),
        !log.entries.contains_key(entry.id),
    ensures
        ({
            let all = log.entries.insert(entry.id, entry);
            let (after, changes) = log.arrive(entry);
            let gone = without(evictions(all, log.limits), entry.id);
            &&& are_newest(after.entries, all)
            &&& fits(after.entries, log.limits)
            &&& forall|other: Map<EntryId, Entry>, id: EntryId|
                #![trigger are_newest(other, all), other.contains_key(id)]
                are_newest(other, all) && fits(other, log.limits) && other.contains_key(id)
                    ==> after.entries.contains_key(id)
            &&& changes == (if after.entries.contains_key(entry.id) {
                seq![Change::Added(entry)]
            } else {
                Seq::empty()
            }) + dropped(gone)
            &&& forall|id: EntryId| #[trigger]
                gone.contains(id) == (log.entries.contains_key(id) && !after.entries.contains_key(
                    id,
                ))
            &&& oldest_first(gone, log.entries)
            &&& !changes.contains(Change::Dropped(entry.id))
            &&& after == (LogState { entries: after.entries, ..log })
        }),
{
    let all = log.entries.insert(entry.id, entry);
    let (after, changes) = log.arrive(entry);
    let evicted = evictions(all, log.limits);
    let gone = without(evicted, entry.id);
    lemma_survivors(all, log.limits);
    lemma_newest_survive(all, log.limits);
    lemma_evictions(all, log.limits, entry.id);
    lemma_others_stay(evicted, entry.id, all);
    lemma_left_out(evicted, entry.id);
    assert forall|other: Map<EntryId, Entry>, id: EntryId|
        #![trigger are_newest(other, all), other.contains_key(id)]
        are_newest(other, all) && fits(other, log.limits) && other.contains_key(
            id,
        ) implies after.entries.contains_key(id) by {
        lemma_survivors_are_most(all, log.limits, other);
    }
    assert forall|id: EntryId| #[trigger] gone.contains(id) == (log.entries.contains_key(id)
        && !after.entries.contains_key(id)) by {
        lemma_evictions(all, log.limits, id);
        assert(gone.contains(id) == (evicted.contains(id) && id != entry.id));
    }
    assert forall|i: int, j: int| 0 <= i < j < gone.len() implies log.entries[#[trigger] gone[i]].order()
        < log.entries[#[trigger] gone[j]].order() by {
        assert(gone.contains(gone[i]) && gone.contains(gone[j]));
    }
    assert(changes =~= (if after.entries.contains_key(entry.id) {
        seq![Change::Added(entry)]
    } else {
        Seq::empty()
    }) + dropped(gone));
    if changes.contains(Change::Dropped(entry.id)) {
        let i = choose|i: int| 0 <= i < changes.len() && changes[i] == Change::Dropped(entry.id);
        let k = if after.entries.contains_key(entry.id) {
            i - 1
        } else {
            i
        };
        assert(changes[i] == dropped(gone)[k]);
        assert(gone[k] == entry.id);
        assert(gone.contains(entry.id));
    }
}

/// What the entries of a log weigh is what they hold together: nothing when
/// there are none, and as much more with another as that one holds.
pub proof fn weights_add_up(entries: Map<EntryId, Entry>, entry: Entry)
    requires
        entries.dom().finite(),
        !entries.contains_key(entry.id),
    ensures
        weight(Map::empty()) == 0,
        weight(entries.insert(entry.id, entry)) == weight(entries) + entry.bytes().len(),
{
    lemma_weight_insert(entries, entry);
    assert(entries.remove(entry.id) =~= entries);
    assert(Map::<EntryId, Entry>::empty().dom() =~= Set::empty());
}

/// Whether a log has room for one more entry of some bytes.
pub open spec fn has_room(log: LogState, bytes: nat) -> bool {
    &&& log.entries.dom().len() < log.limits.entries
    &&& weight(log.entries) + bytes <= log.limits.bytes
}

/// An entry that there is room for is kept, and nothing goes for it.
pub proof fn what_there_is_room_for_is_kept(log: LogState, entry: Entry)
    requires
        log.valid(),
        !log.entries.contains_key(entry.id),
        has_room(log, entry.bytes().len()),
    ensures
        log.arrive(entry) == (
            LogState { entries: log.entries.insert(entry.id, entry), ..log },
            seq![Change::Added(entry)],
        ),
{
    let all = log.entries.insert(entry.id, entry);
    weights_add_up(log.entries, entry);
    assert(all.dom() =~= log.entries.dom().insert(entry.id));
    assert(fits(all, log.limits));
    assert(evictions(all, log.limits) =~= Seq::<EntryId>::empty());
    assert(without(Seq::<EntryId>::empty(), entry.id) =~= Seq::<EntryId>::empty());
    assert(reported(entry, Seq::<EntryId>::empty()) =~= seq![Change::Added(entry)]);
}

/// What this machine writes is named by it and by the next number, stamped
/// later than everything before, holds what was written, and is seen by this
/// machine; and nothing goes for it while there is room.
pub proof fn what_is_written_is_kept(log: LogState, bytes: Payload, durable: bool, wall: u64)
    requires
        log.valid(),
        log.next_seq < u64::MAX,
        log.clock != (Hlc { millis: u64::MAX, counter: u16::MAX }),
        has_room(log, log::payload_bytes(bytes).len()),
    ensures
        ({
            let (after, changes) = log.append(bytes, durable, wall);
            let id = EntryId { origin: log.origin, seq: log.next_seq };
            &&& changes.len() == 1
            &&& changes[0] matches Change::Added(entry) && {
                &&& entry.id == id
                &&& entry.payload == bytes
                &&& entry.durable == durable
                &&& entry.clock == after.clock
                &&& after.entries == log.entries.insert(id, entry)
            }
            &&& wall <= after.clock.millis
            &&& after.clock.millis > log.clock.millis || after.clock.millis == log.clock.millis
                && after.clock.counter > log.clock.counter
            &&& wall > log.clock.millis ==> after.clock.millis == wall
            &&& after.next_seq == log.next_seq + 1
            &&& log::mark_at(after.have, log.origin) >= log.next_seq
            &&& forall|other: EndpointId|
                other != log.origin ==> #[trigger] log::mark_at(after.have, other)
                    == log::mark_at(log.have, other)
            &&& after.origin == log.origin
            &&& after.limits == log.limits
        }),
{
    let clock = clock::next_reading(log.clock, wall);
    let entry = Entry { id: log.next_id(), clock, payload: bytes, durable };
    let ready = LogState {
        next_seq: (log.next_seq + 1) as u64,
        have: log::advanced(log.have, log.origin, log.next_seq),
        clock,
        ..log
    };
    assert(ready.valid()) by {
        assert forall|id: EntryId| #[trigger] ready.entries.contains_key(id) implies {
            &&& ready.entries[id].id == id
            &&& id.seq <= log::mark_at(ready.have, id.origin)
            &&& id.origin == ready.origin ==> id.seq < ready.next_seq
        } by {}
    }
    what_there_is_room_for_is_kept(ready, entry);
}

/// An entry of a peer that was not seen yet is kept as the peer wrote it while
/// there is room, and is seen from then on; no other machine's entries count as
/// seen for it, and what this machine writes next is numbered as before.
pub proof fn what_a_peer_sends_is_kept(log: LogState, entry: Entry, wall: u64)
    requires
        log.valid(),
        entry.id.seq > log::mark_at(log.have, entry.id.origin),
        has_room(log, entry.bytes().len()),
    ensures
        ({
            let (after, changes) = log.accept(entry, wall);
            &&& after.entries == log.entries.insert(entry.id, entry)
            &&& changes == seq![Change::Added(entry)]
            &&& log::mark_at(after.have, entry.id.origin) == entry.id.seq
            &&& forall|other: EndpointId|
                other != entry.id.origin ==> #[trigger] log::mark_at(after.have, other)
                    == log::mark_at(log.have, other)
            &&& after.next_seq == log.next_seq
            &&& after.origin == log.origin
            &&& after.limits == log.limits
            &&& log.clock.rank() <= after.clock.rank()
            &&& entry.clock.millis <= wall + 300_000 ==> entry.clock.rank() <= after.clock.rank()
            &&& log.clock.millis <= wall && entry.clock.millis > wall + 300_000
                ==> after.clock.millis <= wall
        }),
{
    let seen = log.seen(entry.id, entry.clock, wall);
    assert(!log.entries.contains_key(entry.id));
    lemma_kept_once_seen(log, seen, entry);
}

proof fn lemma_kept_once_seen(log: LogState, seen: LogState, entry: Entry)
    requires
        log.valid(),
        !log.entries.contains_key(entry.id),
        has_room(log, entry.bytes().len()),
        seen.entries == log.entries,
        seen.limits == log.limits,
    ensures
        seen.arrive(entry) == (
            LogState { entries: log.entries.insert(entry.id, entry), ..seen },
            seq![Change::Added(entry)],
        ),
{
    what_there_is_room_for_is_kept(log, entry);
}

/// An entry of a peer is taken unless it claims to be written here, has no
/// number, or is larger than the log allows.
pub proof fn what_is_taken_of_a_peer(log: LogState, id: EntryId, size: nat)
    ensures
        log.refusal(id, size) is None <==> id.origin != log.origin && id.seq >= 1 && size
            <= log.limits.payload,
        id.origin == log.origin ==> log.refusal(id, size) == Some(LogError::OwnIdentity),
        id.origin != log.origin && id.seq == 0 ==> log.refusal(id, size) == Some(
            LogError::NoSequence,
        ),
        id.origin != log.origin && id.seq >= 1 && size > log.limits.payload ==> log.refusal(
            id,
            size,
        ) == Some(LogError::TooLarge(log.limits.payload)),
{
}

/// What was read back from the disk is in the log while there is room, it is
/// seen, and what this machine writes next comes after everything of its own
/// that was read back.
pub proof fn what_is_read_back_is_kept(log: LogState, entry: Entry, wall: u64)
    requires
        log.valid(),
        !log.entries.contains_key(entry.id),
        entry.id.seq < u64::MAX,
        has_room(log, entry.bytes().len()),
    ensures
        ({
            let (after, changes) = log.restore(entry, wall);
            &&& after.entries == log.entries.insert(entry.id, entry)
            &&& changes == seq![Change::Added(entry)]
            &&& entry.id.seq <= log::mark_at(after.have, entry.id.origin)
            &&& log.next_seq <= after.next_seq
            &&& entry.id.origin == log.origin ==> entry.id.seq < after.next_seq
            &&& entry.id.origin != log.origin ==> after.next_seq == log.next_seq
            &&& after.origin == log.origin
            &&& after.limits == log.limits
            &&& log.clock.rank() <= after.clock.rank()
        }),
{
    let seen = log.seen(entry.id, entry.clock, wall);
    let next_seq = if entry.id.origin == log.origin && entry.id.seq >= log.next_seq {
        (entry.id.seq + 1) as u64
    } else {
        log.next_seq
    };
    lemma_kept_once_seen(log, LogState { next_seq, ..seen }, entry);
}

/// Taking an entry out takes that one out, and leaves what was seen, what comes
/// next and every other entry as they are.
pub proof fn taking_out_touches_nothing_else(log: LogState, id: EntryId)
    ensures
        log.remove(id).entries == log.entries.remove(id),
        log.remove(id).have == log.have,
        log.remove(id).next_seq == log.next_seq,
        log.remove(id).clock == log.clock,
        log.remove(id).origin == log.origin,
        log.remove(id).limits == log.limits,
{
}

/// A peer is missing an entry exactly when it has not got that far in the
/// entries of the machine that wrote it.
pub proof fn what_a_peer_is_missing(entry: Entry, want: Map<EndpointId, u64>)
    ensures
        want.contains_key(entry.id.origin) ==> (missing(entry, want) <==> entry.id.seq
            > want[entry.id.origin]),
        !want.contains_key(entry.id.origin) ==> (missing(entry, want) <==> entry.id.seq > 0),
{
}


} // verus!
