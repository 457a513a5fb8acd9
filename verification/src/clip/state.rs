//! The clipboard as a state machine.
//!
//! Deriving rather than tracking is what makes catching up safe. A machine
//! that was off for a day receives a day of entries in one go and folds them
//! exactly as if it had seen them live: the history lands in the right order,
//! the same one entry wins, and the clipboard is touched once, not fifty
//! times.
//!
//! An entry reaches the local clipboard once, when it becomes the selection,
//! and nothing puts it back afterwards. An application that takes the
//! selection and exits leaves this clipboard empty; the entry is still in the
//! history, and `yank pick` is what asks for it again.
//!
//! No I/O happens here. Mutations return [`Effect`]s and the caller performs
//! them.

use crate::clip::codec;
use crate::clip::event;
use crate::clip::event::{Event, EventView, RepView, Selection};
use crate::clip::mime;
use crate::clip::model;
use crate::clip::model::{ClipError, ClipState, EffectView, ItemView, Pause, Switch};
use crate::clip::offer;
use crate::clip::offer::{rehomed, serves, stripped, Serve};
use crate::clip::preview;
use crate::clip::preview::preview as describe;
use crate::config::settings::length;
use crate::config::Settings;
use crate::files;
use crate::files::{total, validate, FileRef};
use crate::log;
use crate::log::store;
use crate::log::{
    Change, Checkpoint, Entry, EntryId, Hlc, Limits, Log, LogState, OrderKey, Watermark, WireEntry,
    MAX_ENTRY_BYTES,
};
use crate::net::proto::MAX_FETCH_ENTRIES;
use crate::ordmap;
use crate::ordmap::{OrdMap, Place, Ranked};
use crate::text;
use crate::time::{now, Span, Time, NANOS_PER_SEC};
use std::sync::Arc;
use vstd::prelude::*;

verus! {

/// What a mutation asks the caller to do.
#[derive(Debug)]
pub enum Effect {
    /// Write this entry to the history directory.
    Store(Entry),
    /// Remove this entry's file.
    Forget(EntryId),
    /// Put these representations of a selection on the local clipboard.
    Apply(Vec<Serve>),
    /// Empty the local clipboard.
    ClearSelection,
    /// Bring the files this entry names onto this machine, from whoever has
    /// them. Until they are here it is on the clipboard as text.
    Fetch(EntryId),
}

impl View for Effect {
    type V = EffectView;

    open spec fn view(&self) -> EffectView {
        match *self {
            Effect::Store(entry) => EffectView::Store(entry),
            Effect::Forget(id) => EffectView::Forget(id),
            Effect::Apply(serves) => EffectView::Apply(offer::serve_views(serves@)),
            Effect::ClearSelection => EffectView::ClearSelection,
            Effect::Fetch(id) => EffectView::Fetch(id),
        }
    }
}

/// What some effects ask for.
pub open spec fn effect_views(effects: Seq<Effect>) -> Seq<EffectView> {
    effects.map_values(|effect: Effect| effect@)
}

/// One entry as the history shows it. The bytes stay in the log; this is what
/// the daemon and the CLI pass around.
#[derive(Debug)]
pub struct Item {
    pub id: EntryId,
    pub clock: Hlc,
    /// The type the entry is named by; the rest are in the log.
    pub mime: String,
    /// What the entry weighs: every representation, and the files it names.
    pub size: usize,
    pub secret: bool,
    /// When this entry disappears everywhere, if it was given a lifetime.
    pub expires_at: Option<Time>,
    /// One line describing the contents; `<secret>` when it must not be shown.
    pub preview: String,
    /// The files the entry names, empty when it names none. Shared rather than
    /// owned: a manifest runs to thousands of files.
    pub files: Arc<Vec<FileRef>>,
    /// Hash of the copied bytes, to recognize the same content coming back
    /// from the compositor.
    pub hash: [u8; 32],
}

impl View for Item {
    type V = ItemView;

    open spec fn view(&self) -> ItemView {
        ItemView {
            id: self.id,
            clock: self.clock,
            mime: self.mime@,
            size: self.size,
            secret: self.secret,
            expires_at: self.expires_at,
            preview: self.preview@,
            files: files::manifest(self.files@),
            hash: self.hash@,
        }
    }
}

impl Clone for Item {
    fn clone(&self) -> (other: Self)
        ensures
            other@ == self@,
    {
        Item {
            id: self.id,
            clock: self.clock,
            mime: self.mime.clone(),
            size: self.size,
            secret: self.secret,
            expires_at: self.expires_at,
            preview: self.preview.clone(),
            files: self.files.clone(),
            hash: self.hash,
        }
    }
}

/// A selection read off the local clipboard.
#[derive(Debug)]
pub struct Captured {
    /// What was copied, in every type that was captured.
    pub selection: Selection,
    /// Whether the source flagged this as a password (see
    /// [`mime::SECRET_HINT`]).
    pub secret: bool,
}

/// The clipboard of this machine.
pub struct Clipboard {
    log: Log,
    settings: Arc<Settings>,
    items: OrdMap<EntryId, Item>,
    forgotten: OrdMap<EntryId, ()>,
    purged_through: Hlc,
    cleared_through: Hlc,
    applied: Option<EntryId>,
    ready: OrdMap<EntryId, Vec<u8>>,
    pause: Pause,
}

/// What some history entries are.
pub open spec fn item_views(items: Map<EntryId, Item>) -> Map<EntryId, ItemView> {
    items.map_values(|item: Item| item@)
}

/// Where some trees are.
pub open spec fn tree_views(ready: Map<EntryId, Vec<u8>>) -> Map<EntryId, Seq<u8>> {
    ready.map_values(|tree: Vec<u8>| tree@)
}

impl View for Clipboard {
    type V = ClipState;

    closed spec fn view(&self) -> ClipState {
        ClipState {
            log: self.log@,
            items: item_views(self.items@),
            forgotten: self.forgotten@.dom(),
            purged_through: self.purged_through,
            cleared_through: self.cleared_through,
            applied: self.applied,
            ready: tree_views(self.ready@),
            pause: self.pause,
        }
    }
}

impl Clipboard {
    /// What holds of a clipboard between calls.
    pub closed spec fn wf(&self) -> bool {
        &&& self.log.wf()
        &&& self.items.wf()
        &&& self.forgotten.wf()
        &&& self.ready.wf()
        &&& self@.valid()
    }

    /// What the user configured.
    pub closed spec fn configured(&self) -> Settings {
        *self.settings
    }

    /// A well-formed clipboard is a valid one.
    pub proof fn lemma_valid(&self)
        requires
            self.wf(),
        ensures
            self@.valid(),
    {
    }

    /// Builds the clipboard over `log`.
    pub fn new(log: Log, settings: Arc<Settings>, pause: Pause) -> (board: Self)
        requires
            log.wf(),
        ensures
            board.wf(),
            board.configured() == *settings,
            board@ == (ClipState {
                log: log@,
                items: Map::empty(),
                forgotten: Set::empty(),
                purged_through: Hlc { millis: 0, counter: 0 },
                cleared_through: Hlc { millis: 0, counter: 0 },
                applied: None,
                ready: Map::empty(),
                pause,
            }),
    {
        let board = Clipboard {
            log,
            settings,
            items: OrdMap::new(),
            forgotten: OrdMap::new(),
            purged_through: Hlc { millis: 0, counter: 0 },
            cleared_through: Hlc { millis: 0, counter: 0 },
            applied: None,
            ready: OrdMap::new(),
            pause,
        };
        proof {
            board.log.lemma_valid();
            assert(board@.items =~= Map::empty());
            assert(board@.ready =~= Map::empty());
            assert(board@.forgotten =~= Set::empty());
        }
        board
    }

    /// Removes an entry from the history and from the log.
    fn drop_item(&mut self, id: EntryId, effects: &mut Vec<Effect>)
        requires
            old(self).wf(),
        ensures
            final(self).wf(),
            final(self).configured() == old(self).configured(),
            final(self)@ == old(self)@.without(id),
            effect_views(final(effects)@) == effect_views(old(effects)@).push(
                EffectView::Forget(id),
            ),
    {
        self.items.remove(&id);
        self.ready.remove(&id);
        self.log.remove(id);
        effects.push(Effect::Forget(id));
        proof {
            self.log.lemma_valid();
            self.items.lemma_pairs();
            assert(self@.items =~= old(self)@.items.remove(id));
            assert(self@.ready =~= old(self)@.ready.remove(id));
            assert(effect_views(effects@) =~= effect_views(old(effects)@).push(
                EffectView::Forget(id),
            ));
            assert(self@ =~= old(self)@.without(id));
        }
    }
}

/// The history entry for a copy, or none when its lifetime has already run out,
/// when its manifest is refused, and when it carries nothing at all.
fn make_item(entry: &Entry, copy: event::Copy, now: Time) -> (item: Option<Item>)
    ensures
        match item {
            Some(item) => model::item_of(*entry, copy@, now) == Some(item@),
            None => model::item_of(*entry, copy@, now) is None,
        },
{
    match validate(copy.files.as_slice()) {
        Ok(_) => {},
        Err(_) => {
            return None;
        },
    }
    let expires_at = match copy.ttl {
        Some(ttl) => {
            let written = entry.clock.as_system_time();
            let from: u128 = if written.nanos < now.nanos {
                written.nanos
            } else {
                now.nanos
            };
            Some(Time { nanos: from + ttl as u128 * NANOS_PER_SEC })
        },
        None => None,
    };
    match expires_at {
        Some(deadline) => {
            if now.nanos >= deadline.nanos {
                return None;
            }
        },
        None => {},
    }
    if copy.files.len() == 0 && copy.selection.size() == 0 {
        return None;
    }
    let named: usize = match total(copy.files.as_slice()) {
        Ok(size) => length(size),
        Err(_) => {
            return None;
        },
    };
    assert(copy@.reps[0] == copy.selection.primary@);
    let size: usize = copy.selection.size().saturating_add(named);
    let primary = &copy.selection.primary;
    let preview = describe(primary.mime.as_str(), primary.bytes.as_slice(), copy.secret);
    let hash = files::hash_bytes(primary.bytes.as_slice());
    let item = Item {
        id: entry.id,
        clock: entry.clock,
        mime: primary.mime.clone(),
        size,
        secret: copy.secret,
        expires_at,
        preview,
        files: Arc::new(copy.files),
        hash,
    };
    assert(item@ =~= model::item_of(*entry, copy@, now)->0);
    Some(item)
}

/// Queues an entry for the disk, unless it must never touch one.
fn store_entry(entry: &Entry, effects: &mut Vec<Effect>)
    ensures
        effect_views(final(effects)@) == effect_views(old(effects)@) + model::stores(*entry),
{
    if entry.durable {
        effects.push(Effect::Store(entry.clone()));
    }
    assert(effect_views(effects@) =~= effect_views(old(effects)@) + model::stores(*entry));
}

impl Clipboard {
    /// Names of the history that go up, that hold what is asked of them, and
    /// that leave out none that does, are those in order.
    proof fn lemma_named(&self, ids: Seq<EntryId>, p: spec_fn(ItemView) -> bool)
        requires
            self.wf(),
            ordmap::keys_ascending(ids),
            forall|i: int|
                0 <= i < ids.len() ==> self@.items.contains_key(#[trigger] ids[i]) && p(
                    self@.items[ids[i]],
                ),
            forall|id: EntryId| #[trigger]
                self@.items.contains_key(id) && p(self@.items[id]) ==> ids.contains(id),
        ensures
            ids == model::named_in_order(self@.items, p),
    {
        let items = self@.items;
        let set = items.dom().filter(|id: EntryId| p(items[id]));
        assert forall|id: EntryId| ids.contains(id) == #[trigger] set.contains(id) by {
            if set.contains(id) {
                assert(items.contains_key(id));
            }
        }
        ordmap::lemma_in_order(ids, set);
    }

    /// The history entries written at or before a point, in order.
    fn stale(&self, through: Hlc) -> (ids: Vec<EntryId>)
        requires
            self.wf(),
        ensures
            ids@ == model::named_in_order(
                self@.items,
                |item: ItemView| item.clock.rank() <= through.rank(),
            ),
    {
        let ghost p = |item: ItemView| item.clock.rank() <= through.rank();
        let mut ids: Vec<EntryId> = Vec::new();
        let n: usize = self.items.len();
        let ghost pairs = self.items.pairs();
        let mut i: usize = 0;
        while i < n
            invariant
                i <= n,
                n == pairs.len(),
                self.wf(),
                pairs == self.items.pairs(),
                p == (|item: ItemView| item.clock.rank() <= through.rank()),
                listed(ids@, pairs, p, i as int),
            decreases n - i,
        {
            proof {
                self.items.lemma_pairs();
                assert(self@.items.contains_key(pairs[i as int].0));
                lemma_listed_more(ids@, pairs, p, i as int);
            }
            let item = self.items.value_at(i);
            match item.clock.place(&through) {
                Place::After => {},
                _ => {
                    ids.push(self.items.key_at(i));
                },
            }
            i += 1;
        }
        proof {
            self.lemma_all_listed(ids@, p);
        }
        ids
    }

    /// The history entries whose lifetime has run out, in order.
    fn expired(&self, now: Time) -> (ids: Vec<EntryId>)
        requires
            self.wf(),
        ensures
            ids@ == self@.expired(now),
    {
        let ghost p = |item: ItemView| model::due(item.expires_at, now);
        let mut ids: Vec<EntryId> = Vec::new();
        let n: usize = self.items.len();
        let ghost pairs = self.items.pairs();
        let mut i: usize = 0;
        while i < n
            invariant
                i <= n,
                n == pairs.len(),
                self.wf(),
                pairs == self.items.pairs(),
                p == (|item: ItemView| model::due(item.expires_at, now)),
                listed(ids@, pairs, p, i as int),
            decreases n - i,
        {
            proof {
                self.items.lemma_pairs();
                lemma_listed_more(ids@, pairs, p, i as int);
            }
            let item = self.items.value_at(i);
            match item.expires_at {
                Some(deadline) => {
                    if now.nanos >= deadline.nanos {
                        ids.push(self.items.key_at(i));
                    }
                },
                None => {},
            }
            i += 1;
        }
        proof {
            self.lemma_all_listed(ids@, p);
        }
        ids
    }

    proof fn lemma_all_listed(&self, ids: Seq<EntryId>, p: spec_fn(ItemView) -> bool)
        requires
            self.wf(),
            listed(ids, self.items.pairs(), p, self.items.pairs().len() as int),
        ensures
            ids == model::named_in_order(self@.items, p),
            forall|i: int| 0 <= i < ids.len() ==> self@.items.contains_key(#[trigger] ids[i]),
    {
        self.items.lemma_pairs();
        let pairs = self.items.pairs();
        assert forall|i: int| 0 <= i < ids.len() implies self@.items.contains_key(#[trigger] ids[i])
            && p(self@.items[ids[i]]) by {
            assert(paired(ids[i], pairs, p, pairs.len() as int));
            let k = choose|k: int|
                0 <= k < pairs.len() && ids[i] == (#[trigger] pairs[k]).0 && p(pairs[k].1@);
            assert(self.items@.contains_key(pairs[k].0));
        }
        assert forall|id: EntryId| #[trigger]
            self@.items.contains_key(id) && p(self@.items[id]) implies ids.contains(id) by {
            assert(self.items@.contains_key(id));
            let k = choose|k: int|
                0 <= k < pairs.len() && (#[trigger] pairs[k]) == (id, self.items@[id]);
            assert(p(pairs[k].1@));
        }
        self.lemma_named(ids, p);
    }
}

/// Whether some names are those of the first `n` history entries of which
/// something holds, in order.
spec fn listed(
    ids: Seq<EntryId>,
    pairs: Seq<(EntryId, Item)>,
    p: spec_fn(ItemView) -> bool,
    n: int,
) -> bool {
    &&& ordmap::keys_ascending(ids)
    &&& forall|i: int| 0 <= i < ids.len() ==> paired(#[trigger] ids[i], pairs, p, n)
    &&& forall|k: int|
        0 <= k < n && p((#[trigger] pairs[k]).1@) ==> ids.contains(pairs[k].0)
}

/// Whether a name is that of one of the first `n` history entries, and
/// something holds of it.
spec fn paired(
    id: EntryId,
    pairs: Seq<(EntryId, Item)>,
    p: spec_fn(ItemView) -> bool,
    n: int,
) -> bool {
    exists|k: int| 0 <= k < n && id == (#[trigger] pairs[k]).0 && p(pairs[k].1@)
}

proof fn lemma_listed_more(
    ids: Seq<EntryId>,
    pairs: Seq<(EntryId, Item)>,
    p: spec_fn(ItemView) -> bool,
    n: int,
)
    requires
        ordmap::ascending(pairs),
        0 <= n < pairs.len(),
        listed(ids, pairs, p, n),
    ensures
        p(pairs[n].1@) ==> listed(ids.push(pairs[n].0), pairs, p, n + 1),
        !p(pairs[n].1@) ==> listed(ids, pairs, p, n + 1),
{
    if p(pairs[n].1@) {
        let more = ids.push(pairs[n].0);
        assert forall|i: int, j: int| 0 <= i < j < more.len() implies (#[trigger] more[i]).rank() < (
        #[trigger] more[j]).rank() by {
            assert(paired(ids[i], pairs, p, n));
            let k = choose|k: int|
                0 <= k < n && ids[i] == (#[trigger] pairs[k]).0 && p(pairs[k].1@);
            assert(pairs[k].0.rank() < pairs[n].0.rank());
        }
        assert forall|i: int| 0 <= i < more.len() implies paired(
            #[trigger] more[i],
            pairs,
            p,
            n + 1,
        ) by {
            if i < ids.len() {
                assert(paired(ids[i], pairs, p, n));
                let k = choose|k: int|
                    0 <= k < n && ids[i] == (#[trigger] pairs[k]).0 && p(pairs[k].1@);
                assert(more[i] == pairs[k].0);
            } else {
                assert(more[i] == pairs[n].0);
            }
        }
        assert forall|k: int| 0 <= k < n + 1 && p((#[trigger] pairs[k]).1@) implies more.contains(
            pairs[k].0,
        ) by {
            if k < n {
                assert(ids.contains(pairs[k].0));
                let i = choose|i: int| 0 <= i < ids.len() && ids[i] == pairs[k].0;
                assert(more[i] == pairs[k].0);
            } else {
                assert(more[ids.len() as int] == pairs[k].0);
            }
        }
    } else {
        assert forall|i: int| 0 <= i < ids.len() implies paired(#[trigger] ids[i], pairs, p, n + 1) by {
            assert(paired(ids[i], pairs, p, n));
            let k = choose|k: int|
                0 <= k < n && ids[i] == (#[trigger] pairs[k]).0 && p(pairs[k].1@);
            assert(ids[i] == pairs[k].0);
        }
    }
}

impl Clipboard {
    /// Drops some entries, one after the other.
    fn drop_all(&mut self, ids: &Vec<EntryId>, effects: &mut Vec<Effect>)
        requires
            old(self).wf(),
        ensures
            final(self).wf(),
            final(self).configured() == old(self).configured(),
            final(self)@ == old(self)@.without_all(ids@),
            effect_views(final(effects)@) == effect_views(old(effects)@) + model::forgets(ids@),
    {
        let mut i: usize = 0;
        assert(effect_views(effects@) =~= effect_views(old(effects)@) + model::forgets(
            ids@.take(0),
        ));
        while i < ids.len()
            invariant
                i <= ids.len(),
                self.wf(),
                self.configured() == old(self).configured(),
                self@ == old(self)@.without_all(ids@.take(i as int)),
                effect_views(effects@) == effect_views(old(effects)@) + model::forgets(
                    ids@.take(i as int),
                ),
            decreases ids.len() - i,
        {
            self.drop_item(ids[i], effects);
            assert(ids@.take(i + 1).drop_last() =~= ids@.take(i as int));
            i += 1;
            assert(effect_views(effects@) =~= effect_views(old(effects)@) + model::forgets(
                ids@.take(i as int),
            ));
        }
        assert(ids@.take(i as int) =~= ids@);
    }

    /// Applies one new log entry at `now`.
    fn add(&mut self, entry: &Entry, now: Time, effects: &mut Vec<Effect>)
        requires
            old(self).wf(),
        ensures
            final(self).wf(),
            final(self).configured() == old(self).configured(),
            final(self)@ == old(self)@.add(*entry, now).0,
            effect_views(final(effects)@) == effect_views(old(effects)@) + old(self)@.add(
                *entry,
                now,
            ).1,
    {
        let event = match Event::decode(entry.payload.slice()) {
            Ok(event) => event,
            Err(_) => {
                assert(effect_views(effects@) =~= effect_views(old(effects)@) + old(self)@.add(
                    *entry,
                    now,
                ).1);
                return;
            },
        };
        match event {
            Event::Copy(copy) => {
                let purged = match entry.clock.place(&self.purged_through) {
                    Place::After => false,
                    _ => true,
                };
                let item = if purged || self.forgotten.contains_key(&entry.id) {
                    None
                } else {
                    make_item(entry, copy, now)
                };
                match item {
                    Some(item) => {
                        self.items.insert(entry.id, item);
                        proof {
                            self.items.lemma_pairs();
                            assert(self@.items =~= old(self)@.items.insert(entry.id, item@));
                            assert(self@ =~= old(self)@.add(*entry, now).0);
                        }
                        store_entry(entry, effects);
                    },
                    None => {
                        self.log.remove(entry.id);
                        effects.push(Effect::Forget(entry.id));
                        proof {
                            self.log.lemma_valid();
                            assert(self@ =~= old(self)@.add(*entry, now).0);
                            assert(effect_views(effects@) =~= effect_views(old(effects)@)
                                + old(self)@.add(*entry, now).1);
                        }
                    },
                }
            },
            Event::Clear => {
                self.cleared_through = self.cleared_through.max(entry.clock);
                assert(self@ =~= old(self)@.add(*entry, now).0);
                store_entry(entry, effects);
            },
            Event::Forget(target) => {
                self.forgotten.insert(target, ());
                proof {
                    assert(self@.forgotten =~= old(self)@.forgotten.insert(target));
                    assert(self@ =~= (ClipState {
                        forgotten: old(self)@.forgotten.insert(target),
                        ..old(self)@
                    }));
                }
                self.drop_item(target, effects);
                store_entry(entry, effects);
                assert(effect_views(effects@) =~= effect_views(old(effects)@) + old(self)@.add(
                    *entry,
                    now,
                ).1);
            },
            Event::Purge => {
                let stale = self.stale(entry.clock);
                self.purged_through = self.purged_through.max(entry.clock);
                assert(self@ =~= (ClipState {
                    purged_through: old(self)@.purged_through.later(entry.clock),
                    ..old(self)@
                }));
                self.drop_all(&stale, effects);
                store_entry(entry, effects);
                assert(effect_views(effects@) =~= effect_views(old(effects)@) + old(self)@.add(
                    *entry,
                    now,
                ).1);
            },
        }
    }

    /// Folds log changes into the history at `now`, without touching the
    /// clipboard.
    fn fold(&mut self, changes: Vec<Change>, now: Time) -> (effects: Vec<Effect>)
        requires
            old(self).wf(),
        ensures
            final(self).wf(),
            final(self).configured() == old(self).configured(),
            (final(self)@, effect_views(effects@)) == old(self)@.fold(changes@, now),
    {
        let mut effects: Vec<Effect> = Vec::new();
        let mut i: usize = 0;
        assert(effect_views(effects@) =~= Seq::<EffectView>::empty());
        while i < changes.len()
            invariant
                i <= changes.len(),
                self.wf(),
                self.configured() == old(self).configured(),
                (self@, effect_views(effects@)) == old(self)@.fold(changes@.take(i as int), now),
            decreases changes.len() - i,
        {
            let ghost before = self@;
            let ghost had = effect_views(effects@);
            assert(changes@.take(i + 1).drop_last() =~= changes@.take(i as int));
            match &changes[i] {
                Change::Added(entry) => {
                    self.add(entry, now, &mut effects);
                },
                Change::Dropped(id) => {
                    self.items.remove(id);
                    effects.push(Effect::Forget(*id));
                    proof {
                        self.items.lemma_pairs();
                        assert(self@.items =~= before.items.remove(*id));
                        assert(self@ =~= before.take(changes@[i as int], now).0);
                        assert(effect_views(effects@) =~= had + before.take(
                            changes@[i as int],
                            now,
                        ).1);
                    }
                },
            }
            i += 1;
        }
        assert(changes@.take(i as int) =~= changes@);
        effects
    }

    /// The entry currently on the clipboard, as far as the mesh is concerned.
    pub fn selection(&self) -> (item: Option<&Item>)
        requires
            self.wf(),
        ensures
            match item {
                Some(item) => {
                    &&& self@.selected() == Some(item.id)
                    &&& self@.items.contains_key(item.id)
                    &&& item@ == self@.items[item.id]
                },
                None => self@.selected() is None,
            },
    {
        let n: usize = self.items.len();
        let ghost pairs = self.items.pairs();
        let mut best: Option<&Item> = None;
        let mut i: usize = 0;
        proof {
            self.items.lemma_pairs();
        }
        while i < n
            invariant
                i <= n,
                n == pairs.len(),
                self.wf(),
                pairs == self.items.pairs(),
                match best {
                    Some(item) => {
                        &&& self@.items.contains_key(item.id)
                        &&& item@ == self@.items[item.id]
                        &&& item.clock.rank() > self.cleared_through.rank()
                        &&& forall|k: int|
                            0 <= k < i && (#[trigger] pairs[k]).1.clock.rank()
                                > self.cleared_through.rank() ==> model::item_order(pairs[k].1@)
                                <= model::item_order(item@)
                    },
                    None => forall|k: int|
                        0 <= k < i ==> (#[trigger] pairs[k]).1.clock.rank()
                            <= self.cleared_through.rank(),
                },
            decreases n - i,
        {
            proof {
                self.items.lemma_pairs();
                assert(self.items@.contains_key(pairs[i as int].0));
                assert(self@.items.contains_key(pairs[i as int].0));
            }
            let item = self.items.value_at(i);
            let newer = match item.clock.place(&self.cleared_through) {
                Place::After => match best {
                    Some(other) => {
                        let mine = OrderKey { clock: item.clock, id: item.id };
                        let theirs = OrderKey { clock: other.clock, id: other.id };
                        match mine.place(&theirs) {
                            Place::After => true,
                            _ => false,
                        }
                    },
                    None => true,
                },
                _ => false,
            };
            if newer {
                best = Some(item);
            }
            i += 1;
        }
        proof {
            self.lemma_selection(best);
        }
        best
    }

    proof fn lemma_selection(&self, best: Option<&Item>)
        requires
            self.wf(),
            match best {
                Some(item) => {
                    &&& self@.items.contains_key(item.id)
                    &&& item@ == self@.items[item.id]
                    &&& item.clock.rank() > self.cleared_through.rank()
                    &&& forall|k: int|
                        0 <= k < self.items.pairs().len() && (
                        #[trigger] self.items.pairs()[k]).1.clock.rank()
                            > self.cleared_through.rank() ==> model::item_order(
                            self.items.pairs()[k].1@,
                        ) <= model::item_order(item@)
                },
                None => forall|k: int|
                    0 <= k < self.items.pairs().len() ==> (
                    #[trigger] self.items.pairs()[k]).1.clock.rank() <= self.cleared_through.rank(),
            },
        ensures
            match best {
                Some(item) => self@.selected() == Some(item.id),
                None => self@.selected() is None,
            },
    {
        self.items.lemma_pairs();
        let pairs = self.items.pairs();
        match best {
            Some(item) => {
                assert forall|other: EntryId| #[trigger]
                    self@.items.contains_key(other) && self@.items[other].clock.rank()
                        > self@.cleared_through.rank() implies model::item_order(
                    self@.items[other],
                ) <= model::item_order(self@.items[item.id]) by {
                    assert(self.items@.contains_key(other));
                    let k = choose|k: int|
                        0 <= k < pairs.len() && (#[trigger] pairs[k]) == (
                            other,
                            self.items@[other],
                        );
                    assert(pairs[k].1@ == self@.items[other]);
                }
                assert(self@.is_selected(item.id));
                model::lemma_selected(self@, item.id);
            },
            None => {
                if exists|id: EntryId| self@.is_selected(id) {
                    let id = choose|id: EntryId| self@.is_selected(id);
                    assert(self.items@.contains_key(id));
                    let k = choose|k: int|
                        0 <= k < pairs.len() && (#[trigger] pairs[k]) == (id, self.items@[id]);
                    assert(pairs[k].1@ == self@.items[id]);
                }
            },
        }
    }

    /// The copied bytes of an entry, decoded from the log.
    pub fn body(&self, id: EntryId) -> (result: Result<event::Copy, ClipError>)
        requires
            self.wf(),
        ensures
            match result {
                Ok(copy) => self@.copied(id) == Some(copy@),
                Err(error) => {
                    &&& self@.copied(id) is None
                    &&& error == self@.body_error(id)
                },
            },
    {
        match self.log.get(id) {
            None => Err(ClipError::Gone(id)),
            Some(entry) => match Event::decode(entry.payload.slice()) {
                Ok(Event::Copy(copy)) => Ok(copy),
                Ok(_) => Err(ClipError::NotACopy(id)),
                Err(_) => Err(ClipError::Undecodable(id)),
            },
        }
    }

    /// Whether an entry was copied on this machine.
    pub fn is_local(&self, id: EntryId) -> (r: bool)
        ensures
            r == self@.is_ours(id),
    {
        id.origin == self.log.origin()
    }

    /// The representations of an entry that mean anything on this machine.
    ///
    /// A path is only true where the files are: on the machine that copied
    /// them, and on any machine that has fetched them since. Until then what is
    /// left of it is the text of those paths, which is at least honest.
    fn carried(&self, copy: event::Copy, id: EntryId) -> (selection: Selection)
        requires
            self.wf(),
        ensures
            selection@ == self@.carried(copy@, id),
    {
        match self.ready.get(&id) {
            Some(tree) => rehomed(&copy, tree.as_slice()),
            None => if self.is_local(id) {
                copy.selection
            } else {
                stripped(&copy.selection)
            },
        }
    }

    /// Brings the local clipboard in line with the selection at `now`.
    fn reconcile(&mut self, now: Time) -> (effects: Vec<Effect>)
        requires
            old(self).wf(),
        ensures
            final(self).wf(),
            final(self).configured() == old(self).configured(),
            (final(self)@, effect_views(effects@)) == old(self)@.reconcile(now),
    {
        let mut effects: Vec<Effect> = Vec::new();
        assert(effect_views(effects@) =~= Seq::<EffectView>::empty());
        if !self.pause.apply.is_on(now) {
            return effects;
        }
        let selected = match self.selection() {
            Some(item) => Some(item.id),
            None => None,
        };
        match selected {
            Some(id) => {
                let put = match self.applied {
                    Some(applied) => applied == id,
                    None => false,
                };
                if put {
                    return effects;
                }
                let copy = match self.body(id) {
                    Ok(copy) => copy,
                    Err(_) => {
                        return effects;
                    },
                };
                self.applied = Some(id);
                let ghost after = ClipState { applied: Some(id), ..old(self)@ };
                assert(self@ =~= after);
                // Asked for once, as the entry reaches the clipboard, and
                // answered by [`Self::materialized`] whenever it lands. The
                // clipboard is not held up for it.
                if copy.is_files() && !copy.secret && !self.is_local(id) && !self.ready.contains_key(
                    &id,
                ) {
                    effects.push(Effect::Fetch(id));
                }
                let ghost had = effect_views(effects@);
                let selection = self.carried(copy, id);
                let offers = serves(&selection);
                effects.push(Effect::Apply(offers));
                assert(effect_views(effects@) =~= old(self)@.reconcile(now).1);
                effects
            },
            None => {
                if self.applied.is_some() {
                    self.applied = None;
                    assert(self@ =~= (ClipState { applied: None, ..old(self)@ }));
                    effects.push(Effect::ClearSelection);
                    assert(effect_views(effects@) =~= seq![EffectView::ClearSelection]);
                }
                effects
            },
        }
    }

    /// Folds log changes into the history and reconciles the clipboard.
    fn ingest(&mut self, changes: Vec<Change>, now: Time) -> (effects: Vec<Effect>)
        requires
            old(self).wf(),
        ensures
            final(self).wf(),
            final(self).configured() == old(self).configured(),
            (final(self)@, effect_views(effects@)) == old(self)@.ingest(changes@, now),
    {
        let mut effects = self.fold(changes, now);
        let ghost first = effect_views(effects@);
        let mut more = self.reconcile(now);
        let ghost second = effect_views(more@);
        effects.append(&mut more);
        assert(effect_views(effects@) =~= first + second);
        effects
    }
}

impl Clipboard {
    /// The limits a log serving this clipboard should be built with.
    ///
    /// Both are clamped to what the protocol can carry, because a history
    /// bigger than one fetch response is a history that can never be
    /// replicated: the receiver would refuse every over-long response and the
    /// two machines would stop syncing altogether, quietly.
    ///
    /// The payload cap is the protocol ceiling rather than the configured one,
    /// on purpose: a peer with a larger setting must still have its entries
    /// accepted, or the two would disagree about the history.
    pub fn limits(settings: &Settings) -> (limits: Limits)
        ensures
            limits.entries == (if settings.kept_entries() <= MAX_FETCH_ENTRIES {
                settings.kept_entries()
            } else {
                MAX_FETCH_ENTRIES
            }),
            limits.bytes == crate::config::settings::as_length(settings.history_budget),
            limits.payload == MAX_ENTRY_BYTES,
    {
        let entries: usize = settings.history_entries();
        Limits {
            entries: if entries <= MAX_FETCH_ENTRIES {
                entries
            } else {
                MAX_FETCH_ENTRIES
            },
            bytes: length(settings.history_budget),
            payload: MAX_ENTRY_BYTES as usize,
        }
    }

    /// What this machine holds, to announce to peers.
    pub fn have(&self) -> (have: Watermark)
        requires
            self.wf(),
        ensures
            have.wf(),
            have@ == self@.log.have,
    {
        self.log.have()
    }

    /// The entries a peer at `want` is missing, in log order.
    pub fn since(&self, want: &Watermark) -> (wires: Vec<WireEntry>)
        requires
            self.wf(),
            want.wf(),
        ensures
            sent(wires@, self@.log, want@),
    {
        let entries = self.log.since(want);
        let mut wires: Vec<WireEntry> = Vec::new();
        let mut i: usize = 0;
        while i < entries.len()
            invariant
                i <= entries.len(),
                wires@.len() == i,
                forall|j: int| 0 <= j < i ==> (#[trigger] wires@[j]).carries(*entries@[j]),
            decreases entries.len() - i,
        {
            wires.push(WireEntry::from(entries[i]));
            i += 1;
        }
        proof {
            let held = self@.log.entries;
            assert forall|id: EntryId| #[trigger]
                held.contains_key(id) && store::missing(held[id], want@) implies exists|j: int|
                0 <= j < wires@.len() && (#[trigger] wires@[j]).carries(held[id]) by {
                let wanted = |entry: Entry| store::missing(entry, want@);
                assert(wanted(held[id]));
                let j = choose|j: int|
                    0 <= j < entries@.len() && *(#[trigger] entries@[j]) == held[id];
                assert(wires@[j].carries(held[id]));
            }
            assert forall|j: int| 0 <= j < wires@.len() implies held.contains_key(
                (#[trigger] wires@[j]).id,
            ) && wires@[j].carries(held[wires@[j].id]) && store::missing(
                held[wires@[j].id],
                want@,
            ) by {
                assert(wires@[j].carries(*entries@[j]));
                assert(held.contains_key(entries@[j].id));
            }
            assert forall|i: int, j: int| 0 <= i < j < wires@.len() implies (
            #[trigger] wires@[i]).id.rank() < (#[trigger] wires@[j]).id.rank() by {
                assert(wires@[i].carries(*entries@[i]) && wires@[j].carries(*entries@[j]));
                assert(entries@[i].id.rank() < entries@[j].id.rank());
            }
        }
        wires
    }

    /// The sequence and clock state to persist.
    pub fn checkpoint(&self) -> (checkpoint: Checkpoint)
        ensures
            checkpoint == (Checkpoint { next_seq: self@.log.next_seq, clock: self@.log.clock }),
    {
        self.log.checkpoint()
    }

    /// Which directions are running.
    pub fn pause(&self) -> (pause: Pause)
        ensures
            pause == self@.pause,
    {
        self.pause
    }

    /// Records something copied on this machine at `now`, from `yank copy`.
    ///
    /// Unlike [`Self::captured`] the bytes are not on the clipboard yet, so
    /// this both shares them and puts them there.
    pub fn copy_at(
        &mut self,
        selection: Selection,
        files: Vec<FileRef>,
        secret: bool,
        ttl: Option<Span>,
        now: Time,
    ) -> (result: Result<(EntryId, Vec<Effect>), ClipError>)
        requires
            old(self).wf(),
            old(self)@.log.next_seq < u64::MAX,
        ensures
            final(self).wf(),
            final(self).configured() == old(self).configured(),
            copying(
                old(self)@,
                old(self).configured(),
                selection@,
                files::manifest(files@),
                secret,
                ttl,
                now,
                final(self)@,
                result,
            ),
    {
        let size: usize = selection.size();
        match validate(files.as_slice()) {
            Ok(_) => {},
            Err(error) => {
                return Err(ClipError::Manifest(error));
            },
        }
        if size == 0 {
            return Err(ClipError::Nothing);
        }
        if size > self.settings.max_entry_bytes() {
            return Err(ClipError::TooLarge);
        }
        let ttl = self.lifetime(secret, ttl);
        let event = Event::Copy(event::Copy { selection, secret, ttl, files });
        let payload = event.encode();
        match self.log.append_at(payload, !secret, now.millis()) {
            Ok((id, changes)) => {
                proof {
                    self.log.lemma_valid();
                }
                assert(self@ =~= old(self)@.write(event@, !secret, now).0);
                Ok((id, self.ingest(changes, now)))
            },
            Err(error) => {
                assert(self@ =~= old(self)@);
                Err(ClipError::Log(error))
            },
        }
    }

    /// The lifetime an entry gets: what was asked for, or the configured
    /// default when it is a secret and nothing was asked.
    fn lifetime(&self, secret: bool, ttl: Option<Span>) -> (seconds: Option<u32>)
        ensures
            seconds == model::lifetime(secret, ttl, self.configured().secret_ttl),
    {
        let span = match ttl {
            Some(span) => span,
            None => {
                if !secret {
                    return None;
                }
                self.settings.secret_ttl
            },
        };
        let seconds: u128 = span.nanos / NANOS_PER_SEC;
        if seconds <= u32::MAX as u128 {
            Some(seconds as u32)
        } else {
            Some(u32::MAX)
        }
    }

    /// Drops the alternates that do not fit the entry cap, from the back,
    /// since they arrive best first. Nothing fits when the primary alone is
    /// over it: that is a selection too big to share, not one to share in part.
    fn fit(&self, selection: Selection) -> (fitting: Option<Selection>)
        ensures
            match fitting {
                Some(fitting) => model::fitted(selection@, self.configured().entry_cap()) == Some(
                    fitting@,
                ),
                None => model::fitted(selection@, self.configured().entry_cap()) is None,
            },
    {
        let cap: usize = self.settings.max_entry_bytes();
        let mut fitting = selection;
        while fitting.size() > cap
            invariant
                cap == self.configured().entry_cap(),
                model::fitted(selection@, cap) == model::fitted(fitting@, cap),
            decreases fitting.alternates@.len(),
        {
            let ghost before = fitting@;
            match fitting.alternates.pop() {
                Some(_) => {
                    assert(fitting@ =~= before.drop_last());
                },
                None => {
                    assert(fitting@ =~= before);
                    assert(fitting@.len() == 1);
                    return None;
                },
            }
        }
        Some(fitting)
    }

    /// Records something the compositor says was copied, at `now`.
    ///
    /// The bytes are already on the clipboard, so the new entry is marked as
    /// applied: putting them back would take the selection away from the
    /// application that owns it, for nothing.
    pub fn captured_at(&mut self, captured: Captured, files: Vec<FileRef>, now: Time) -> (result:
        Result<Vec<Effect>, ClipError>)
        requires
            old(self).wf(),
            old(self)@.log.next_seq < u64::MAX,
        ensures
            final(self).wf(),
            final(self).configured() == old(self).configured(),
            capturing(
                old(self)@,
                old(self).configured(),
                captured,
                files::manifest(files@),
                now,
                final(self)@,
                result,
            ),
    {
        let nothing: Vec<Effect> = Vec::new();
        assert(effect_views(nothing@) =~= Seq::<EffectView>::empty());
        if !self.pause.capture.is_on(now) {
            return Ok(nothing);
        }
        let secret = captured.secret;
        let selection = match self.fit(captured.selection) {
            Some(selection) => selection,
            None => {
                return Ok(nothing);
            },
        };
        // The clipboard already holding what the mesh selected is the normal
        // case after a restart, or after we applied an entry an application
        // then re-announced. Recording it again would put a duplicate in
        // everyone's history on every restart. The first representation is
        // enough to tell.
        assert(selection@[0] == selection.primary@);
        let hash = files::hash_bytes(selection.primary.bytes.as_slice());
        let known = match self.selection() {
            Some(item) => if same_hash(&item.hash, &hash) {
                Some(item.id)
            } else {
                None
            },
            None => None,
        };
        match known {
            Some(id) => {
                self.applied = Some(id);
                assert(self@ =~= (ClipState { applied: Some(id), ..old(self)@ }));
                return Ok(nothing);
            },
            None => {},
        }
        let ttl = self.lifetime(secret, None);
        let event = Event::Copy(event::Copy { selection, secret, ttl, files });
        let payload = event.encode();
        match self.log.append_at(payload, !secret, now.millis()) {
            Ok((id, changes)) => {
                proof {
                    self.log.lemma_valid();
                }
                assert(self@ =~= old(self)@.write(event@, !secret, now).0);
                let mut effects = self.fold(changes, now);
                let ghost first = effect_views(effects@);
                let ghost folded = self@;
                // Recorded before reconciling: the bytes are on the clipboard
                // already, and reconciling without this would take the
                // selection away from the application that owns it.
                self.applied = Some(id);
                assert(self@ =~= (ClipState { applied: Some(id), ..folded }));
                let mut more = self.reconcile(now);
                let ghost second = effect_views(more@);
                effects.append(&mut more);
                assert(effect_views(effects@) =~= first + second);
                Ok(effects)
            },
            Err(error) => {
                assert(self@ =~= old(self)@);
                Err(ClipError::Log(error))
            },
        }
    }
}

/// Whether two hashes are the same.
fn same_hash(a: &[u8; 32], b: &[u8; 32]) -> (r: bool)
    ensures
        r == (a@ == b@),
{
    let mut i: usize = 0;
    while i < 32
        invariant
            i <= 32,
            forall|j: int| 0 <= j < i ==> #[trigger] a@[j] == b@[j],
        decreases 32 - i,
    {
        if a[i] != b[i] {
            return false;
        }
        i += 1;
    }
    assert(a@ =~= b@);
    true
}

/// Whether some entries are those of a log that a peer at `want` is missing,
/// in log order.
pub open spec fn sent(
    wires: Seq<WireEntry>,
    log: LogState,
    want: Map<log::EndpointId, u64>,
) -> bool {
    &&& forall|j: int|
        0 <= j < wires.len() ==> {
            &&& log.entries.contains_key((#[trigger] wires[j]).id)
            &&& wires[j].carries(log.entries[wires[j].id])
            &&& store::missing(log.entries[wires[j].id], want)
        }
    &&& forall|id: EntryId| #[trigger]
        log.entries.contains_key(id) && store::missing(log.entries[id], want) ==> exists|j: int|
            0 <= j < wires.len() && (#[trigger] wires[j]).carries(log.entries[id])
    &&& forall|i: int, j: int|
        0 <= i < j < wires.len() ==> (#[trigger] wires[i]).id.rank() < (
        #[trigger] wires[j]).id.rank()
}

/// Whether an entry may be persisted, by what it says.
fn is_durable(payload: &[u8]) -> (r: bool)
    ensures
        r == model::is_durable(payload@),
{
    match Event::decode(payload) {
        Ok(Event::Copy(copy)) => !copy.secret,
        Ok(_) => true,
        Err(_) => false,
    }
}

/// Takes entries of peers that have all been found acceptable.
fn accept_all(log: &mut Log, entries: Vec<WireEntry>, wall: u64) -> (changes: Vec<Change>)
    requires
        old(log).wf(),
        forall|i: int|
            0 <= i < entries@.len() ==> old(log)@.refusal(
                (#[trigger] entries@[i]).id,
                entries@[i].payload@.len(),
            ) is None,
    ensures
        final(log).wf(),
        log::all_intact(entries@),
        (final(log)@, changes@) == model::accept_all(old(log)@, entries@, wall),
{
    let mut changes: Vec<Change> = Vec::new();
    let ghost start = log@;
    for wire in it: entries
        invariant
            log.wf(),
            start == old(log)@,
            it.seq() == entries@,
            (log@, changes@) == model::accept_all(start, entries@.take(it.index()), wall),
            forall|i: int| 0 <= i < it.index() ==> log::intact((#[trigger] entries@[i]).payload@),
            forall|i: int|
                0 <= i < entries@.len() ==> start.refusal(
                    (#[trigger] entries@[i]).id,
                    entries@[i].payload@.len(),
                ) is None,
    {
        let ghost had = changes@;
        proof {
            assert(entries@.take(it.index() + 1).drop_last() =~= entries@.take(it.index()));
            model::lemma_accept_all_keeps(start, entries@.take(it.index()), wall);
            assert(wire == entries@[it.index()]);
        }
        let durable = is_durable(wire.payload.as_slice());
        match log.accept_at(wire, durable, wall) {
            Ok(mut more) => {
                let ghost fresh = more@;
                changes.append(&mut more);
                assert(changes@ =~= had + fresh);
            },
            Err(_) => {},
        }
    }
    assert(entries@.take(entries@.len() as int) =~= entries@);
    changes
}

/// Re-inserts entries read back from disk.
fn restore_all(log: &mut Log, entries: Vec<WireEntry>, wall: u64) -> (changes: Vec<Change>)
    requires
        old(log).wf(),
        forall|i: int|
            0 <= i < entries@.len() && (#[trigger] entries@[i]).id.origin == old(log)@.origin
                ==> entries@[i].id.seq < u64::MAX,
    ensures
        final(log).wf(),
        log::all_intact(entries@),
        (final(log)@, changes@) == model::restore_all(old(log)@, entries@, wall),
{
    let mut changes: Vec<Change> = Vec::new();
    let ghost start = log@;
    for wire in it: entries
        invariant
            log.wf(),
            start == old(log)@,
            it.seq() == entries@,
            (log@, changes@) == model::restore_all(start, entries@.take(it.index()), wall),
            forall|i: int| 0 <= i < it.index() ==> log::intact((#[trigger] entries@[i]).payload@),
            forall|i: int|
                0 <= i < entries@.len() && (#[trigger] entries@[i]).id.origin == start.origin
                    ==> entries@[i].id.seq < u64::MAX,
    {
        let ghost had = changes@;
        proof {
            assert(entries@.take(it.index() + 1).drop_last() =~= entries@.take(it.index()));
            model::lemma_restore_all_keeps(start, entries@.take(it.index()), wall);
            assert(wire == entries@[it.index()]);
        }
        let mut more = log.restore_at(wire, wall);
        let ghost fresh = more@;
        changes.append(&mut more);
        assert(changes@ =~= had + fresh);
    }
    assert(entries@.take(entries@.len() as int) =~= entries@);
    changes
}

impl Clipboard {
    /// Takes a batch of entries from a peer at `now`.
    ///
    /// A batch, not one entry at a time, and this is the whole point: a
    /// machine catching up on a day of history folds all of it before the
    /// clipboard is touched, so it is set once, to the entry that actually
    /// won, instead of flickering through every entry in turn.
    ///
    /// One unusable entry fails the batch, and the batch is checked before any
    /// of it is taken, so a bad entry halfway through leaves nothing behind.
    pub fn accept_at(&mut self, entries: Vec<WireEntry>, now: Time) -> (result: Result<
        Vec<Effect>,
        ClipError,
    >)
        requires
            old(self).wf(),
        ensures
            final(self).wf(),
            final(self).configured() == old(self).configured(),
            accepting(old(self)@, entries@, now, final(self)@, result),
    {
        let mut i: usize = 0;
        while i < entries.len()
            invariant
                i <= entries.len(),
                *self == *old(self),
                self.wf(),
                self@.batch_refusal(entries@.take(i as int)) is None,
            decreases entries.len() - i,
        {
            let wire = &entries[i];
            assert(entries@.take(i + 1).drop_last() =~= entries@.take(i as int));
            match self.check(wire) {
                Ok(_) => {},
                Err(error) => {
                    proof {
                        model::lemma_batch_starts(self@, entries@, i + 1);
                    }
                    return Err(error);
                },
            }
            i += 1;
        }
        assert(entries@.take(i as int) =~= entries@);
        assert forall|n: int| 0 <= n < entries@.len() implies self.log@.refusal(
            (#[trigger] entries@[n]).id,
            entries@[n].payload@.len(),
        ) is None by {
            model::lemma_batch(self@, entries@, n);
        }
        let changes = accept_all(&mut self.log, entries, now.millis());
        proof {
            self.log.lemma_valid();
            assert(self@ =~= (ClipState {
                log: model::accept_all(old(self)@.log, entries@, now.whole_millis()).0,
                ..old(self)@
            }));
        }
        Ok(self.ingest(changes, now))
    }

    /// Checks one entry of a batch.
    fn check(&self, wire: &WireEntry) -> (result: Result<(), ClipError>)
        requires
            self.wf(),
        ensures
            match result {
                Ok(_) => self@.entry_refusal(wire.id, wire.payload@) is None,
                Err(error) => self@.entry_refusal(wire.id, wire.payload@) == Some(error),
            },
    {
        match self.log.validate(wire) {
            Ok(_) => {},
            Err(error) => {
                return Err(ClipError::Log(error));
            },
        }
        match Event::decode(wire.payload.as_slice()) {
            Ok(Event::Copy(copy)) => match validate(copy.files.as_slice()) {
                Ok(_) => Ok(()),
                Err(error) => Err(ClipError::Manifest(error)),
            },
            _ => Ok(()),
        }
    }

    /// Re-inserts the entries read back from disk, at `now`.
    ///
    /// Returns only the removals, since everything else read back is already
    /// where it belongs. Those removals matter: a history limit the user
    /// lowered, or a forget replayed from the log, drops entries whose files
    /// would otherwise sit there in plain text for good.
    ///
    /// Nothing reaches the clipboard here, and nothing ever will for what was
    /// read back: those entries have had their turn on it.
    pub fn restore_at(&mut self, entries: Vec<WireEntry>, now: Time) -> (effects: Vec<Effect>)
        requires
            old(self).wf(),
            forall|i: int|
                0 <= i < entries@.len() && (#[trigger] entries@[i]).id.origin == old(
                    self,
                )@.log.origin ==> entries@[i].id.seq < u64::MAX,
        ensures
            final(self).wf(),
            final(self).configured() == old(self).configured(),
            log::all_intact(entries@),
            final(self)@ == old(self)@.restore(entries@, now),
            effect_views(effects@) == model::forgets(model::lost(final(self)@.log, entries@)),
    {
        let mut restored: Vec<EntryId> = Vec::new();
        let mut i: usize = 0;
        while i < entries.len()
            invariant
                i <= entries.len(),
                restored@.len() == i,
                forall|j: int| 0 <= j < i ==> #[trigger] restored@[j] == entries@[j].id,
            decreases entries.len() - i,
        {
            restored.push(entries[i].id);
            i += 1;
        }
        let ghost wires = entries@;
        let changes = restore_all(&mut self.log, entries, now.millis());
        proof {
            self.log.lemma_valid();
            assert(self@ =~= (ClipState {
                log: model::restore_all(old(self)@.log, wires, now.whole_millis()).0,
                ..old(self)@
            }));
        }
        // The effects of the fold are of no use here: every entry it adds is
        // one that was just read off the disk. What matters is what did *not*
        // survive, which is asked of the log.
        self.fold(changes, now);
        let ghost folded = self@;
        // A restart is not a reason to put an entry on the clipboard. What the
        // session holds is the compositor's to report.
        self.applied = match self.selection() {
            Some(item) => Some(item.id),
            None => None,
        };
        assert(self@ =~= (ClipState { applied: folded.selected(), ..folded }));
        let mut effects: Vec<Effect> = Vec::new();
        let mut i: usize = 0;
        assert(effect_views(effects@) =~= model::forgets(model::lost(self@.log, wires.take(0))));
        while i < restored.len()
            invariant
                i <= restored.len(),
                self.wf(),
                restored@.len() == wires.len(),
                forall|j: int| 0 <= j < wires.len() ==> #[trigger] restored@[j] == wires[j].id,
                effect_views(effects@) == model::forgets(
                    model::lost(self@.log, wires.take(i as int)),
                ),
            decreases restored.len() - i,
        {
            assert(wires.take(i + 1).drop_last() =~= wires.take(i as int));
            let ghost had = effect_views(effects@);
            let id = restored[i];
            if self.log.get(id).is_none() {
                effects.push(Effect::Forget(id));
                assert(effect_views(effects@) =~= had.push(EffectView::Forget(id)));
            }
            i += 1;
            assert(effect_views(effects@) =~= model::forgets(
                model::lost(self@.log, wires.take(i as int)),
            ));
        }
        assert(wires.take(i as int) =~= wires);
        effects
    }

    /// Makes an entry already in the history the selection again at `now`, by
    /// copying it anew: history is append-only, so promoting an entry means
    /// writing it, not moving it.
    pub fn pick_at(&mut self, id: EntryId, now: Time) -> (result: Result<
        (EntryId, Vec<Effect>),
        ClipError,
    >)
        requires
            old(self).wf(),
            old(self)@.log.next_seq < u64::MAX,
        ensures
            final(self).wf(),
            final(self).configured() == old(self).configured(),
            picking(old(self)@, old(self).configured(), id, now, final(self)@, result),
    {
        let copy = match self.body(id) {
            Ok(copy) => copy,
            Err(error) => {
                return Err(error);
            },
        };
        let ttl = match copy.ttl {
            Some(seconds) => Some(Span::from_secs(seconds as u64)),
            None => None,
        };
        let secret = copy.secret;
        let local = self.is_local(id);
        // The new entry is ours, written under this machine's identity, so
        // what it may claim is what this machine can back up.
        let held = local || self.ready.contains_key(&id);
        let ghost view = copy@;
        let mut files: Vec<FileRef> = Vec::new();
        assert(files::manifest(files@) =~= Seq::empty());
        if held {
            files = copy.files;
        }
        // Its paths are not carried over even when they are here: a tree
        // belongs to the entry that named it.
        let selection = if local {
            copy.selection
        } else {
            stripped(&copy.selection)
        };
        let ghost event = old(self)@.pick_event(view, id, old(self).configured().secret_ttl);
        assert(model::copy_event(
            selection@,
            files::manifest(files@),
            secret,
            ttl,
            old(self).configured().secret_ttl,
        ) == event);
        match self.copy_at(selection, files, secret, ttl, now) {
            Ok((picked, mut effects)) => {
                let ghost had = effect_views(effects@);
                if held && !local {
                    effects.push(Effect::Fetch(picked));
                }
                assert(effect_views(effects@) =~= had + old(self)@.pick_fetch(id));
                Ok((picked, effects))
            },
            Err(error) => Err(error),
        }
    }

    /// Writes an event that carries no content, at `now`.
    fn say(&mut self, event: Event, now: Time) -> (result: Result<Vec<Effect>, ClipError>)
        requires
            old(self).wf(),
            old(self)@.log.next_seq < u64::MAX,
        ensures
            final(self).wf(),
            final(self).configured() == old(self).configured(),
            spoken(old(self)@, event@, now, final(self)@, result),
    {
        let payload = event.encode();
        match self.log.append_at(payload, true, now.millis()) {
            Ok((_, changes)) => {
                proof {
                    self.log.lemma_valid();
                }
                assert(self@ =~= old(self)@.write(event@, true, now).0);
                Ok(self.ingest(changes, now))
            },
            Err(error) => {
                assert(self@ =~= old(self)@);
                Err(ClipError::Log(error))
            },
        }
    }

    /// Empties the clipboard on every machine, at `now`.
    pub fn clear_at(&mut self, now: Time) -> (result: Result<Vec<Effect>, ClipError>)
        requires
            old(self).wf(),
            old(self)@.log.next_seq < u64::MAX,
        ensures
            final(self).wf(),
            final(self).configured() == old(self).configured(),
            spoken(old(self)@, EventView::Clear, now, final(self)@, result),
    {
        self.say(Event::Clear, now)
    }

    /// Drops one entry from every machine, at `now`.
    pub fn forget_at(&mut self, id: EntryId, now: Time) -> (result: Result<Vec<Effect>, ClipError>)
        requires
            old(self).wf(),
            old(self)@.log.next_seq < u64::MAX,
        ensures
            final(self).wf(),
            final(self).configured() == old(self).configured(),
            spoken(old(self)@, EventView::Forget(id), now, final(self)@, result),
    {
        self.say(Event::Forget(id), now)
    }

    /// Drops the whole history from every machine, at `now`.
    ///
    /// What it covers is its own place in the order, not the newest entry this
    /// machine happens to hold: a machine that has not caught up yet holds
    /// little or nothing, and a purge derived from that would drop nothing
    /// anywhere while reporting success.
    pub fn purge_at(&mut self, now: Time) -> (result: Result<Vec<Effect>, ClipError>)
        requires
            old(self).wf(),
            old(self)@.log.next_seq < u64::MAX,
        ensures
            final(self).wf(),
            final(self).configured() == old(self).configured(),
            spoken(old(self)@, EventView::Purge, now, final(self)@, result),
    {
        self.say(Event::Purge, now)
    }

    /// Pauses or resumes the directions that are named, at `now`.
    pub fn set_pause_at(
        &mut self,
        capture: Option<Switch>,
        apply: Option<Switch>,
        now: Time,
    ) -> (effects: Vec<Effect>)
        requires
            old(self).wf(),
        ensures
            final(self).wf(),
            final(self).configured() == old(self).configured(),
            (final(self)@, effect_views(effects@)) == old(self)@.switched(
                capture,
                apply,
            ).reconcile(now),
    {
        match capture {
            Some(capture) => {
                self.pause = Pause { capture, apply: self.pause.apply };
            },
            None => {},
        }
        match apply {
            Some(apply) => {
                self.pause = Pause { capture: self.pause.capture, apply };
            },
            None => {},
        }
        assert(self@ =~= old(self)@.switched(capture, apply));
        self.reconcile(now)
    }

    /// Drops everything whose lifetime has run out at `now`, and brings the
    /// clipboard in line at `at`.
    ///
    /// Expiry needs no agreement between machines: they all hold the same
    /// entry with the same lifetime, so they all drop it at the same moment
    /// without saying a word. It works with the network down, which is the
    /// point of a lifetime on a password.
    pub fn expire_at(&mut self, now: Time, at: Time) -> (effects: Vec<Effect>)
        requires
            old(self).wf(),
        ensures
            final(self).wf(),
            final(self).configured() == old(self).configured(),
            (final(self)@, effect_views(effects@)) == old(self)@.expire(now, at),
    {
        let expired = self.expired(now);
        let mut effects: Vec<Effect> = Vec::new();
        let mut i: usize = 0;
        assert(effect_views(effects@) =~= model::forgets(expired@.take(0)));
        while i < expired.len()
            invariant
                i <= expired.len(),
                self.wf(),
                self.configured() == old(self).configured(),
                self@ == old(self)@.expire_all(expired@.take(i as int)),
                effect_views(effects@) == model::forgets(expired@.take(i as int)),
            decreases expired.len() - i,
        {
            let id = expired[i];
            let ghost before = self@;
            assert(expired@.take(i + 1).drop_last() =~= expired@.take(i as int));
            // An entry that was the selection empties the clipboard instead of
            // falling back to an older one: what a lifetime promises is that
            // the thing is gone, not that the previous password comes back.
            let clock = match self.selection() {
                Some(item) => if item.id == id {
                    Some(item.clock)
                } else {
                    None
                },
                None => None,
            };
            match clock {
                Some(clock) => {
                    self.cleared_through = self.cleared_through.max(clock);
                },
                None => {},
            }
            proof {
                assert(self@ =~= (ClipState { cleared_through: self.cleared_through, ..before }));
            }
            self.drop_item(id, &mut effects);
            i += 1;
            assert(effect_views(effects@) =~= model::forgets(expired@.take(i as int)));
        }
        assert(expired@.take(i as int) =~= expired@);
        let ghost first = effect_views(effects@);
        let mut more = self.reconcile(at);
        let ghost second = effect_views(more@);
        effects.append(&mut more);
        assert(effect_views(effects@) =~= first + second);
        effects
    }

    /// Records that an entry's files are on this machine, laid out under
    /// `tree`, and offers them as files if it is what the clipboard holds.
    pub fn materialized_at(&mut self, id: EntryId, tree: Vec<u8>, now: Time) -> (effects: Vec<
        Effect,
    >)
        requires
            old(self).wf(),
        ensures
            final(self).wf(),
            final(self).configured() == old(self).configured(),
            (final(self)@, effect_views(effects@)) == old(self)@.materialize(id, tree@, now),
    {
        self.ready.insert(id, tree);
        assert(self@.ready =~= old(self)@.ready.insert(id, tree@));
        // Only the entry on the clipboard has anything new to offer, and it
        // has to be applied again for the file types to appear.
        let put = match self.applied {
            Some(applied) => applied == id,
            None => false,
        };
        if put {
            self.applied = None;
        }
        assert(self@ =~= (ClipState {
            ready: old(self)@.ready.insert(id, tree@),
            applied: if old(self)@.applied == Some(id) {
                None
            } else {
                old(self)@.applied
            },
            ..old(self)@
        }));
        self.reconcile(now)
    }
}

/// What saying an event that carries no content comes to.
pub open spec fn spoken(
    before: ClipState,
    event: EventView,
    now: Time,
    after: ClipState,
    result: Result<Vec<Effect>, ClipError>,
) -> bool {
    match result {
        Ok(effects) => {
            &&& before.takes(event)
            &&& codec::writable(event) ==> codec::legible(event)
            &&& (after, effect_views(effects@)) == before.say(event, true, now)
        },
        Err(error) => {
            &&& !before.takes(event)
            &&& error == ClipError::Log(log::LogError::TooLarge(before.log.limits.payload))
            &&& after == before
        },
    }
}

/// What copying something comes to.
pub open spec fn copying(
    before: ClipState,
    settings: Settings,
    reps: Seq<RepView>,
    files: Seq<files::FileName>,
    secret: bool,
    ttl: Option<Span>,
    now: Time,
    after: ClipState,
    result: Result<(EntryId, Vec<Effect>), ClipError>,
) -> bool {
    let event = model::copy_event(reps, files, secret, ttl, settings.secret_ttl);
    let refusal = before.copy_refusal(event, settings.entry_cap());
    match result {
        Ok((id, effects)) => {
            &&& refusal is None
            &&& id == before.log.next_id()
            &&& codec::legible(event)
            &&& (after, effect_views(effects@)) == before.say(event, !secret, now)
        },
        Err(error) => refusal == Some(error) && after == before,
    }
}

/// What recording something the compositor reported comes to.
pub open spec fn capturing(
    before: ClipState,
    settings: Settings,
    captured: Captured,
    files: Seq<files::FileName>,
    now: Time,
    after: ClipState,
    result: Result<Vec<Effect>, ClipError>,
) -> bool {
    let outcome = before.capture(
        captured.selection@,
        files,
        captured.secret,
        settings.entry_cap(),
        settings.secret_ttl,
        now,
    );
    match result {
        Ok(effects) => {
            &&& outcome == (after, Ok::<_, ClipError>(effect_views(effects@)))
            &&& before.capture_event(
                captured.selection@,
                files,
                captured.secret,
                settings.entry_cap(),
                settings.secret_ttl,
                now,
            ) matches Some(event) ==> codec::legible(event)
        },
        Err(error) => outcome == (after, Err::<Seq<EffectView>, _>(error)),
    }
}

/// What taking a batch of a peer comes to.
pub open spec fn accepting(
    before: ClipState,
    wires: Seq<WireEntry>,
    now: Time,
    after: ClipState,
    result: Result<Vec<Effect>, ClipError>,
) -> bool {
    match result {
        Ok(effects) => {
            &&& before.batch_refusal(wires) is None
            &&& log::all_intact(wires)
            &&& (after, effect_views(effects@)) == before.accept(wires, now)
        },
        Err(error) => before.batch_refusal(wires) == Some(error) && after == before,
    }
}

/// What picking an entry comes to.
pub open spec fn picking(
    before: ClipState,
    settings: Settings,
    id: EntryId,
    now: Time,
    after: ClipState,
    result: Result<(EntryId, Vec<Effect>), ClipError>,
) -> bool {
    match before.copied(id) {
        None => result == Err::<(EntryId, Vec<Effect>), ClipError>(before.body_error(id)) && after
            == before,
        Some(copy) => {
            let event = before.pick_event(copy, id, settings.secret_ttl);
            let refusal = before.copy_refusal(event, settings.entry_cap());
            match result {
                Ok((picked, effects)) => {
                    let said = before.say(event, !copy.secret, now);
                    &&& refusal is None
                    &&& picked == before.log.next_id()
                    &&& codec::legible(event)
                    &&& after == said.0
                    &&& effect_views(effects@) == said.1 + before.pick_fetch(id)
                },
                Err(error) => refusal == Some(error) && after == before,
            }
        },
    }
}

impl Clipboard {
    /// Records something copied on this machine, from `yank copy`.
    ///
    /// Unlike [`Self::captured`] the bytes are not on the clipboard yet, so
    /// this both shares them and puts them there.
    pub fn copy(
        &mut self,
        selection: Selection,
        files: Vec<FileRef>,
        secret: bool,
        ttl: Option<Span>,
    ) -> (result: Result<(EntryId, Vec<Effect>), ClipError>)
        requires
            old(self).wf(),
            old(self)@.log.next_seq < u64::MAX,
        ensures
            final(self).wf(),
            final(self).configured() == old(self).configured(),
            exists|now: Time| #[trigger]
                copying(
                    old(self)@,
                    old(self).configured(),
                    selection@,
                    files::manifest(files@),
                    secret,
                    ttl,
                    now,
                    final(self)@,
                    result,
                ),
    {
        let now = now();
        self.copy_at(selection, files, secret, ttl, now)
    }

    /// Records something the compositor says was copied.
    ///
    /// The bytes are already on the clipboard, so the new entry is marked as
    /// applied: putting them back would take the selection away from the
    /// application that owns it, for nothing.
    pub fn captured(&mut self, captured: Captured, files: Vec<FileRef>) -> (result: Result<
        Vec<Effect>,
        ClipError,
    >)
        requires
            old(self).wf(),
            old(self)@.log.next_seq < u64::MAX,
        ensures
            final(self).wf(),
            final(self).configured() == old(self).configured(),
            exists|now: Time| #[trigger]
                capturing(
                    old(self)@,
                    old(self).configured(),
                    captured,
                    files::manifest(files@),
                    now,
                    final(self)@,
                    result,
                ),
    {
        let now = now();
        self.captured_at(captured, files, now)
    }

    /// Takes a batch of entries from a peer.
    pub fn accept(&mut self, entries: Vec<WireEntry>) -> (result: Result<Vec<Effect>, ClipError>)
        requires
            old(self).wf(),
        ensures
            final(self).wf(),
            final(self).configured() == old(self).configured(),
            exists|now: Time| #[trigger]
                accepting(old(self)@, entries@, now, final(self)@, result),
    {
        let now = now();
        self.accept_at(entries, now)
    }

    /// Re-inserts the entries read back from disk, and returns the removals.
    pub fn restore(&mut self, entries: Vec<WireEntry>) -> (effects: Vec<Effect>)
        requires
            old(self).wf(),
            forall|i: int|
                0 <= i < entries@.len() && (#[trigger] entries@[i]).id.origin == old(
                    self,
                )@.log.origin ==> entries@[i].id.seq < u64::MAX,
        ensures
            final(self).wf(),
            final(self).configured() == old(self).configured(),
            log::all_intact(entries@),
            exists|now: Time| final(self)@ == #[trigger] old(self)@.restore(entries@, now),
            effect_views(effects@) == model::forgets(model::lost(final(self)@.log, entries@)),
    {
        let now = now();
        self.restore_at(entries, now)
    }

    /// Makes an entry already in the history the selection again, by copying
    /// it anew.
    pub fn pick(&mut self, id: EntryId) -> (result: Result<(EntryId, Vec<Effect>), ClipError>)
        requires
            old(self).wf(),
            old(self)@.log.next_seq < u64::MAX,
        ensures
            final(self).wf(),
            final(self).configured() == old(self).configured(),
            exists|now: Time| #[trigger]
                picking(old(self)@, old(self).configured(), id, now, final(self)@, result),
    {
        let now = now();
        self.pick_at(id, now)
    }

    /// Empties the clipboard on every machine.
    pub fn clear(&mut self) -> (result: Result<Vec<Effect>, ClipError>)
        requires
            old(self).wf(),
            old(self)@.log.next_seq < u64::MAX,
        ensures
            final(self).wf(),
            final(self).configured() == old(self).configured(),
            exists|now: Time| #[trigger]
                spoken(old(self)@, EventView::Clear, now, final(self)@, result),
    {
        let now = now();
        self.clear_at(now)
    }

    /// Drops one entry from every machine.
    pub fn forget(&mut self, id: EntryId) -> (result: Result<Vec<Effect>, ClipError>)
        requires
            old(self).wf(),
            old(self)@.log.next_seq < u64::MAX,
        ensures
            final(self).wf(),
            final(self).configured() == old(self).configured(),
            exists|now: Time| #[trigger]
                spoken(old(self)@, EventView::Forget(id), now, final(self)@, result),
    {
        let now = now();
        self.forget_at(id, now)
    }

    /// Drops the whole history from every machine.
    pub fn purge(&mut self) -> (result: Result<Vec<Effect>, ClipError>)
        requires
            old(self).wf(),
            old(self)@.log.next_seq < u64::MAX,
        ensures
            final(self).wf(),
            final(self).configured() == old(self).configured(),
            exists|now: Time| #[trigger]
                spoken(old(self)@, EventView::Purge, now, final(self)@, result),
    {
        let now = now();
        self.purge_at(now)
    }

    /// Pauses or resumes the directions that are named.
    pub fn set_pause(&mut self, capture: Option<Switch>, apply: Option<Switch>) -> (effects: Vec<
        Effect,
    >)
        requires
            old(self).wf(),
        ensures
            final(self).wf(),
            final(self).configured() == old(self).configured(),
            exists|now: Time|
                (final(self)@, effect_views(effects@)) == #[trigger] old(self)@.switched(
                    capture,
                    apply,
                ).reconcile(now),
    {
        let now = now();
        self.set_pause_at(capture, apply, now)
    }

    /// Drops everything whose lifetime has run out at `now`.
    pub fn expire(&mut self, now: Time) -> (effects: Vec<Effect>)
        requires
            old(self).wf(),
        ensures
            final(self).wf(),
            final(self).configured() == old(self).configured(),
            exists|at: Time|
                (final(self)@, effect_views(effects@)) == #[trigger] old(self)@.expire(now, at),
    {
        let at = crate::time::now();
        self.expire_at(now, at)
    }

    /// Records that an entry's files are on this machine, laid out under
    /// `tree`, and offers them as files if it is what the clipboard holds.
    pub fn materialized(&mut self, id: EntryId, tree: Vec<u8>) -> (effects: Vec<Effect>)
        requires
            old(self).wf(),
        ensures
            final(self).wf(),
            final(self).configured() == old(self).configured(),
            exists|now: Time|
                (final(self)@, effect_views(effects@)) == #[trigger] old(self)@.materialize(
                    id,
                    tree@,
                    now,
                ),
    {
        let now = now();
        self.materialized_at(id, tree, now)
    }

    /// Where an entry's files are laid out here, if they are.
    pub fn tree(&self, id: EntryId) -> (tree: Option<&Vec<u8>>)
        requires
            self.wf(),
        ensures
            match tree {
                Some(tree) => self@.ready.contains_key(id) && self@.ready[id] == tree@,
                None => !self@.ready.contains_key(id),
            },
    {
        self.ready.get(&id)
    }

    /// The files an entry names, for the fetch it asked for.
    pub fn files(&self, id: EntryId) -> (list: Arc<Vec<FileRef>>)
        requires
            self.wf(),
        ensures
            files::manifest(list@) == (if self@.items.contains_key(id) {
                self@.items[id].files
            } else {
                Seq::empty()
            }),
    {
        match self.items.get(&id) {
            Some(item) => item.files.clone(),
            None => {
                let list: Vec<FileRef> = Vec::new();
                assert(files::manifest(list@) =~= Seq::empty());
                Arc::new(list)
            },
        }
    }

    /// When [`Self::expire`] next has something to do.
    pub fn next_expiry(&self) -> (next: Option<Time>)
        requires
            self.wf(),
        ensures
            match next {
                Some(next) => {
                    &&& exists|id: EntryId| #[trigger]
                        self@.items.contains_key(id) && self@.items[id].expires_at == Some(next)
                    &&& forall|id: EntryId| #[trigger]
                        self@.items.contains_key(id) && self@.items[id].expires_at is Some
                            ==> next.nanos <= (self@.items[id].expires_at->0).nanos
                },
                None => forall|id: EntryId| #[trigger]
                    self@.items.contains_key(id) ==> self@.items[id].expires_at is None,
            },
    {
        let n: usize = self.items.len();
        let ghost pairs = self.items.pairs();
        let mut next: Option<Time> = None;
        let mut i: usize = 0;
        proof {
            self.items.lemma_pairs();
        }
        while i < n
            invariant
                i <= n,
                n == pairs.len(),
                self.wf(),
                pairs == self.items.pairs(),
                match next {
                    Some(next) => {
                        &&& exists|k: int|
                            0 <= k < i && (#[trigger] pairs[k]).1.expires_at == Some(next)
                        &&& forall|k: int|
                            0 <= k < i && (#[trigger] pairs[k]).1.expires_at is Some ==> next.nanos
                                <= (pairs[k].1.expires_at->0).nanos
                    },
                    None => forall|k: int|
                        0 <= k < i ==> (#[trigger] pairs[k]).1.expires_at is None,
                },
            decreases n - i,
        {
            let item = self.items.value_at(i);
            assert(pairs[i as int].1 == *item);
            match item.expires_at {
                Some(deadline) => {
                    let sooner = match next {
                        Some(next) => deadline.nanos < next.nanos,
                        None => true,
                    };
                    if sooner {
                        next = Some(deadline);
                        assert(pairs[i as int].1.expires_at == Some(deadline));
                    }
                },
                None => {},
            }
            i += 1;
        }
        proof {
            self.items.lemma_pairs();
            assert forall|id: EntryId| #[trigger] self@.items.contains_key(id) implies exists|k: int|
                0 <= k < pairs.len() && (#[trigger] pairs[k]).1@ == self@.items[id] by {
                assert(self.items@.contains_key(id));
                let k = choose|k: int|
                    0 <= k < pairs.len() && (#[trigger] pairs[k]) == (id, self.items@[id]);
                assert(pairs[k].1@ == self@.items[id]);
            }
            match next {
                Some(next) => {
                    let k = choose|k: int|
                        0 <= k < pairs.len() && (#[trigger] pairs[k]).1.expires_at == Some(next);
                    assert(self.items@.contains_key(pairs[k].0));
                    assert(self@.items.contains_key(pairs[k].0));
                },
                None => {},
            }
        }
        next
    }
}

impl Clipboard {
    /// The history, newest first.
    pub fn history(&self) -> (list: Vec<&Item>)
        requires
            self.wf(),
        ensures
            list@.len() == self@.items.len(),
            forall|i: int|
                0 <= i < list@.len() ==> {
                    &&& self@.items.contains_key((#[trigger] list@[i]).id)
                    &&& list@[i]@ == self@.items[list@[i].id]
                },
            forall|i: int, j: int|
                0 <= i < j < list@.len() ==> model::item_order((#[trigger] list@[i])@)
                    > model::item_order((#[trigger] list@[j])@),
            forall|id: EntryId| #[trigger]
                self@.items.contains_key(id) ==> exists|i: int|
                    0 <= i < list@.len() && (#[trigger] list@[i]).id == id,
    {
        let n: usize = self.items.len();
        let ghost pairs = self.items.pairs();
        let mut order: OrdMap<OrderKey, usize> = OrdMap::new();
        let mut i: usize = 0;
        proof {
            self.items.lemma_pairs();
            order.lemma_pairs();
        }
        while i < n
            invariant
                i <= n,
                n == pairs.len(),
                self.wf(),
                pairs == self.items.pairs(),
                order.wf(),
                order@.dom().finite(),
                order@.len() == i,
                placed(order@, pairs, i as int),
            decreases n - i,
        {
            let item = self.items.value_at(i);
            let key = OrderKey { clock: item.clock, id: item.id };
            proof {
                self.items.lemma_pairs();
                assert(self@.items.contains_key(pairs[i as int].0));
                assert(self@.items[pairs[i as int].0].id == item.id);
                if order@.contains_key(key) {
                    let k = order@[key] as int;
                    assert(self@.items.contains_key(pairs[k].0));
                    assert(self@.items[pairs[k].0].id == pairs[k].1.id);
                    assert(pairs[k].0 == pairs[i as int].0);
                    assert(pairs[k].0.rank() < pairs[i as int].0.rank());
                }
            }
            order.insert(key, i);
            i += 1;
        }
        proof {
            order.lemma_pairs();
        }
        let ghost sorted = order.pairs();
        let count: usize = order.len();
        let mut list: Vec<&Item> = Vec::new();
        let mut left: usize = count;
        while left > 0
            invariant
                left <= count,
                count == sorted.len(),
                n == pairs.len(),
                self.wf(),
                pairs == self.items.pairs(),
                order.wf(),
                sorted == order.pairs(),
                placed(order@, pairs, n as int),
                list@.len() == count - left,
                forall|j: int|
                    0 <= j < list@.len() ==> {
                        let pair = sorted[count - 1 - j];
                        &&& pair.1 < n
                        &&& *(#[trigger] list@[j]) == pairs[pair.1 as int].1
                        &&& pair.0 == item_key(pairs[pair.1 as int].1)
                    },
            decreases left,
        {
            left -= 1;
            proof {
                order.lemma_pairs();
                assert(order@.contains_key(sorted[left as int].0));
            }
            let at: usize = *order.value_at(left);
            list.push(self.items.value_at(at));
        }
        proof {
            self.items.lemma_pairs();
            order.lemma_pairs();
            assert forall|i: int| 0 <= i < list@.len() implies self@.items.contains_key(
                (#[trigger] list@[i]).id,
            ) && list@[i]@ == self@.items[list@[i].id] by {
                let k = sorted[count - 1 - i].1 as int;
                assert(self.items@.contains_key(pairs[k].0));
                assert(self@.items.contains_key(pairs[k].0));
            }
            assert forall|i: int, j: int| 0 <= i < j < list@.len() implies model::item_order(
                (#[trigger] list@[i])@,
            ) > model::item_order((#[trigger] list@[j])@) by {
                assert(sorted[count - 1 - j].0.rank() < sorted[count - 1 - i].0.rank());
            }
            assert forall|id: EntryId| #[trigger] self@.items.contains_key(id) implies exists|i: int|
                0 <= i < list@.len() && (#[trigger] list@[i]).id == id by {
                assert(self.items@.contains_key(id));
                let k = choose|k: int|
                    0 <= k < pairs.len() && (#[trigger] pairs[k]) == (id, self.items@[id]);
                let key = item_key(pairs[k].1);
                assert(order@.contains_key(key));
                let p = choose|p: int|
                    0 <= p < sorted.len() && (#[trigger] sorted[p]) == (key, order@[key]);
                assert(list@[count - 1 - p].id == id);
            }
            assert(self@.items.dom() =~= self.items@.dom());
        }
        list
    }

    /// The history entries a person may mean by what they typed, in order.
    fn matching(&self, needle: &str) -> (ids: Vec<EntryId>)
        requires
            self.wf(),
        ensures
            ids@ == matches(self@, needle@),
            forall|i: int| 0 <= i < ids@.len() ==> self@.items.contains_key(#[trigger] ids@[i]),
    {
        let ghost p = |item: ItemView| needle@.is_prefix_of(item.id.label_text());
        let mut ids: Vec<EntryId> = Vec::new();
        let n: usize = self.items.len();
        let ghost pairs = self.items.pairs();
        let mut i: usize = 0;
        while i < n
            invariant
                i <= n,
                n == pairs.len(),
                self.wf(),
                pairs == self.items.pairs(),
                p == (|item: ItemView| needle@.is_prefix_of(item.id.label_text())),
                listed(ids@, pairs, p, i as int),
            decreases n - i,
        {
            proof {
                self.items.lemma_pairs();
                lemma_listed_more(ids@, pairs, p, i as int);
            }
            let label = self.items.value_at(i).id.label();
            if text::starts_with(label.as_str(), needle) {
                ids.push(self.items.key_at(i));
            }
            i += 1;
        }
        proof {
            self.lemma_all_listed(ids@, p);
        }
        ids
    }

    /// Resolves what a user typed to one entry: a full or partial
    /// [`EntryId::label`].
    pub fn resolve(&self, needle: &str) -> (result: Result<&Item, ClipError>)
        requires
            self.wf(),
        ensures
            match result {
                Ok(item) => {
                    &&& matches(self@, needle@) == seq![item.id]
                    &&& self@.items.contains_key(item.id)
                    &&& item@ == self@.items[item.id]
                },
                Err(ClipError::NoMatch) => matches(self@, needle@).len() == 0,
                Err(ClipError::Ambiguous(n)) => n >= 2 && n == matches(self@, needle@).len(),
                Err(_) => false,
            },
    {
        let ids = self.matching(needle);
        if ids.len() == 0 {
            return Err(ClipError::NoMatch);
        }
        if ids.len() > 1 {
            return Err(ClipError::Ambiguous(ids.len()));
        }
        assert(ids@ =~= seq![ids@[0]]);
        assert(self@.items.contains_key(ids@[0]));
        match self.items.get(&ids[0]) {
            Some(item) => Ok(item),
            None => {
                Err(ClipError::NoMatch)
            },
        }
    }

    /// The entry a caller named, or the selection when it named none.
    pub fn named(&self, needle: Option<&str>) -> (result: Result<&Item, ClipError>)
        requires
            self.wf(),
        ensures
            match needle {
                Some(needle) => match result {
                    Ok(item) => {
                        &&& matches(self@, needle@) == seq![item.id]
                        &&& self@.items.contains_key(item.id)
                        &&& item@ == self@.items[item.id]
                    },
                    Err(ClipError::NoMatch) => matches(self@, needle@).len() == 0,
                    Err(ClipError::Ambiguous(n)) => n >= 2 && n == matches(self@, needle@).len(),
                    Err(_) => false,
                },
                None => match result {
                    Ok(item) => {
                        &&& self@.selected() == Some(item.id)
                        &&& self@.items.contains_key(item.id)
                        &&& item@ == self@.items[item.id]
                    },
                    Err(error) => error == ClipError::Empty && self@.selected() is None,
                },
            },
    {
        match needle {
            Some(needle) => self.resolve(needle),
            None => match self.selection() {
                Some(item) => Ok(item),
                None => Err(ClipError::Empty),
            },
        }
    }

    /// Every entry the history still holds, and the content those entries
    /// name: what the spool may keep, and nothing else.
    pub fn referenced(&self) -> (kept: (OrdMap<EntryId, ()>, OrdMap<files::Hash, ()>))
        requires
            self.wf(),
        ensures
            kept.0.wf(),
            kept.1.wf(),
            kept.0@.dom() == self@.items.dom(),
            forall|hash: files::Hash| #[trigger]
                kept.1@.contains_key(hash) == content_named(self@.items, hash),
    {
        let n: usize = self.items.len();
        let ghost pairs = self.items.pairs();
        let mut entries: OrdMap<EntryId, ()> = OrdMap::new();
        let mut content: OrdMap<files::Hash, ()> = OrdMap::new();
        let mut i: usize = 0;
        while i < n
            invariant
                i <= n,
                n == pairs.len(),
                self.wf(),
                pairs == self.items.pairs(),
                entries.wf(),
                content.wf(),
                forall|id: EntryId| #[trigger]
                    entries@.contains_key(id) <==> exists|k: int|
                        0 <= k < i && (#[trigger] pairs[k]).0 == id,
                forall|hash: files::Hash| #[trigger]
                    content@.contains_key(hash) <==> exists|k: int|
                        0 <= k < i && hash_named((#[trigger] pairs[k]).1@.files, hash),
            decreases n - i,
        {
            let ghost had = entries@;
            let ghost held = content@;
            entries.insert(self.items.key_at(i), ());
            let item = self.items.value_at(i);
            let mut f: usize = 0;
            while f < item.files.len()
                invariant
                    f <= item.files@.len(),
                    content.wf(),
                    forall|hash: files::Hash| #[trigger]
                        content@.contains_key(hash) <==> held.contains_key(hash) || exists|m: int|
                            0 <= m < f && (#[trigger] item.files@[m]).hash == hash,
                decreases item.files@.len() - f,
            {
                let ghost before = content@;
                let hash = item.files[f].hash;
                content.insert(hash, ());
                assert forall|h: files::Hash| #[trigger] content@.contains_key(h) <==> (
                held.contains_key(h) || exists|m: int|
                    0 <= m < f + 1 && (#[trigger] item.files@[m]).hash == h) by {
                    if h == hash {
                        assert(item.files@[f as int].hash == h);
                    } else if before.contains_key(h) && !held.contains_key(h) {
                        let m = choose|m: int| 0 <= m < f && (#[trigger] item.files@[m]).hash == h;
                        assert(item.files@[m].hash == h);
                    }
                }
                f += 1;
            }
            proof {
                assert(pairs[i as int].1 == *item);
                assert forall|h: files::Hash| (exists|m: int|
                    0 <= m < item.files@.len() && (#[trigger] item.files@[m]).hash == h)
                    == #[trigger] hash_named(item@.files, h) by {
                    if hash_named(item@.files, h) {
                        let m = choose|m: int|
                            0 <= m < item@.files.len() && (#[trigger] item@.files[m]).hash == h;
                        assert(item.files@[m].hash == h);
                    }
                    if exists|m: int|
                        0 <= m < item.files@.len() && (#[trigger] item.files@[m]).hash == h {
                        let m = choose|m: int|
                            0 <= m < item.files@.len() && (#[trigger] item.files@[m]).hash == h;
                        assert(item@.files[m].hash == h);
                    }
                }
                assert forall|h: files::Hash| #[trigger] content@.contains_key(h) <==> exists|k: int|
                    0 <= k < i + 1 && hash_named((#[trigger] pairs[k]).1@.files, h) by {
                    if held.contains_key(h) {
                        let k = choose|k: int|
                            0 <= k < i && hash_named((#[trigger] pairs[k]).1@.files, h);
                        assert(hash_named(pairs[k].1@.files, h));
                    }
                    assert(hash_named(item@.files, h) == hash_named(pairs[i as int].1@.files, h));
                }
                assert forall|id: EntryId| #[trigger] entries@.contains_key(id) <==> exists|k: int|
                    0 <= k < i + 1 && (#[trigger] pairs[k]).0 == id by {
                    if had.contains_key(id) {
                        let k = choose|k: int| 0 <= k < i && (#[trigger] pairs[k]).0 == id;
                        assert(pairs[k].0 == id);
                    }
                    assert(pairs[i as int].0 == pairs[i as int].0);
                }
            }
            i += 1;
        }
        proof {
            self.items.lemma_pairs();
            assert forall|id: EntryId| entries@.dom().contains(id) == #[trigger] self@.items.dom().contains(
                id,
            ) by {
                if self@.items.contains_key(id) {
                    assert(self.items@.contains_key(id));
                    let k = choose|k: int|
                        0 <= k < pairs.len() && (#[trigger] pairs[k]) == (id, self.items@[id]);
                    assert(pairs[k].0 == id);
                    assert(entries@.contains_key(id));
                }
                if entries@.contains_key(id) {
                    let k = choose|k: int| 0 <= k < n && (#[trigger] pairs[k]).0 == id;
                    assert(self.items@.contains_key(pairs[k].0));
                }
            }
            assert(entries@.dom() =~= self@.items.dom());
            assert forall|hash: files::Hash| #[trigger] content@.contains_key(hash)
                == content_named(self@.items, hash) by {
                if content@.contains_key(hash) {
                    let k = choose|k: int|
                        0 <= k < n && hash_named((#[trigger] pairs[k]).1@.files, hash);
                    assert(self.items@.contains_key(pairs[k].0));
                    assert(self@.items.contains_key(pairs[k].0));
                }
                if content_named(self@.items, hash) {
                    let id = choose|id: EntryId| #[trigger]
                        self@.items.contains_key(id) && hash_named(self@.items[id].files, hash);
                    assert(self.items@.contains_key(id));
                    let k = choose|k: int|
                        0 <= k < pairs.len() && (#[trigger] pairs[k]) == (id, self.items@[id]);
                    assert(hash_named(pairs[k].1@.files, hash));
                }
            }
        }
        (entries, content)
    }
}

/// Whether a file among some has a hash.
pub open spec fn hash_named(files: Seq<files::FileName>, hash: files::Hash) -> bool {
    exists|m: int| 0 <= m < files.len() && (#[trigger] files[m]).hash == hash
}

/// Whether some entry of the history names content.
pub open spec fn content_named(items: Map<EntryId, ItemView>, hash: files::Hash) -> bool {
    exists|id: EntryId| #[trigger] items.contains_key(id) && hash_named(items[id].files, hash)
}

/// The history entries whose label begins with what was typed, in order.
pub open spec fn matches(state: ClipState, needle: Seq<char>) -> Seq<EntryId> {
    model::named_in_order(
        state.items,
        |item: ItemView| needle.is_prefix_of(item.id.label_text()),
    )
}

/// The place of an item in the mesh-wide order.
spec fn item_key(item: Item) -> OrderKey {
    OrderKey { clock: item.clock, id: item.id }
}

/// Whether some places are those of the first `n` history entries.
spec fn placed(order: Map<OrderKey, usize>, pairs: Seq<(EntryId, Item)>, n: int) -> bool {
    &&& forall|k: int|
        0 <= k < n ==> order.contains_key(item_key((#[trigger] pairs[k]).1)) && order[item_key(
            pairs[k].1,
        )] == k
    &&& forall|key: OrderKey| #[trigger]
        order.contains_key(key) ==> order[key] < n && key == item_key(pairs[order[key] as int].1)
}

} // verus!
