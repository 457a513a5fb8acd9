//! How entries come into the history, stay in it and leave it.

use crate::clip::codec;
use crate::clip::event::{CopyView, EventView, RepView};
use crate::clip::laws;
use crate::clip::model;
use crate::clip::model::{ClipError, ClipState, EffectView, ItemView, Switch};
use crate::clip::sharing;
use crate::clip::state;
use crate::clip::state::{Captured, Effect};
use crate::config::Settings;
use crate::files;
use crate::files::FileName;
use crate::log;
use crate::log::store;
use crate::log::{Change, Entry, EntryId, Hlc, LogState, WireEntry};
use crate::ordmap;
use crate::ordmap::Ranked;
use crate::time::{Span, Time};
use vstd::prelude::*;

verus! {

/// Whether a reading is later than another: by its milliseconds, and by its
/// counter within a millisecond.
pub open spec fn is_later(a: Hlc, b: Hlc) -> bool {
    a.millis > b.millis || (a.millis == b.millis && a.counter > b.counter)
}

/// How many bytes some files have together.
pub open spec fn file_bytes(files: Seq<FileName>) -> nat
    decreases files.len(),
{
    if files.len() == 0 {
        0
    } else {
        file_bytes(files.drop_last()) + files.last().size as nat
    }
}

/// The nanosecond at which an entry with a lifetime in seconds disappears: that
/// long after it was written, or from now on when it claims to be written later
/// than now.
pub open spec fn last_moment(entry: Entry, ttl: u32, now: Time) -> int {
    (if entry.clock.millis * 1_000_000 < now.nanos {
        entry.clock.millis * 1_000_000
    } else {
        now.nanos as int
    }) + ttl * 1_000_000_000
}

/// Whether a copy comes into a history: it was neither forgotten nor purged, its
/// files are ones that may be laid out, it is not over, and there is something
/// in it.
pub open spec fn comes_in(state: ClipState, entry: Entry, copy: CopyView, now: Time) -> bool {
    &&& !state.forgotten.contains(entry.id)
    &&& is_later(entry.clock, state.purged_through)
    &&& files::manifest::refusal(copy.files) is None
    &&& copy.ttl matches Some(ttl) ==> now.nanos < last_moment(entry, ttl, now)
    &&& copy.files.len() > 0 || sharing::total_bytes(copy.reps) > 0
}

/// Whether the history shows a copy as what it is.
pub open spec fn shows(item: ItemView, entry: Entry, copy: CopyView, now: Time) -> bool {
    &&& item.id == entry.id
    &&& item.clock == entry.clock
    &&& item.mime == copy.reps[0].0
    &&& item.secret == copy.secret
    &&& item.files == copy.files
    &&& item.hash == files::blake3_hash(copy.reps[0].1)
    &&& sharing::total_bytes(copy.reps) + file_bytes(copy.files) <= usize::MAX ==> item.size
        == sharing::total_bytes(copy.reps) + file_bytes(copy.files)
    &&& match copy.ttl {
        Some(ttl) => item.expires_at matches Some(end) && end.nanos == last_moment(entry, ttl, now),
        None => item.expires_at is None,
    }
    &&& copy.secret ==> item.preview == "<secret>"@
}

proof fn lemma_file_bytes(files: Seq<FileName>)
    ensures
        files::manifest::sum(files) == file_bytes(files),
    decreases files.len(),
{
    if files.len() > 0 {
        lemma_file_bytes(files.drop_last());
    }
}

proof fn lemma_later(a: Hlc, b: Hlc)
    ensures
        is_later(a, b) == (a.rank() > b.rank()),
{
}

/// A copy comes into the history as what it is and touches nothing else there,
/// and is kept on the disk unless it must not be. One that does not come in is
/// gone from the log and from the disk, and changes nothing else.
pub proof fn a_copy_comes_into_the_history(
    state: ClipState,
    entry: Entry,
    copy: CopyView,
    now: Time,
)
    requires
        laws::said(entry) == Some(EventView::Copy(copy)),
        copy.reps.len() > 0,
    ensures
        ({
            let (after, effects) = state.add(entry, now);
            if comes_in(state, entry, copy, now) {
                &&& after.items.contains_key(entry.id)
                &&& shows(after.items[entry.id], entry, copy, now)
                &&& after.items.remove(entry.id) == state.items.remove(entry.id)
                &&& after == (ClipState { items: after.items, ..state })
                &&& effects == (if entry.durable {
                    seq![EffectView::Store(entry)]
                } else {
                    Seq::empty()
                })
            } else {
                &&& after == (ClipState {
                    log: LogState { entries: state.log.entries.remove(entry.id), ..state.log },
                    ..state
                })
                &&& effects == seq![EffectView::Forget(entry.id)]
            }
        }),
{
    let (after, effects) = state.add(entry, now);
    lemma_later(entry.clock, state.purged_through);
    sharing::lemma_total(copy.reps);
    lemma_file_bytes(copy.files);
    if let Some(ttl) = copy.ttl {
        assert(entry.clock.millis * 1_000_000 + ttl * 1_000_000_000 <= u128::MAX);
    }
    assert(after.items.remove(entry.id) =~= state.items.remove(entry.id));
}

/// An event that this version does not know changes nothing here.
pub proof fn an_unknown_event_changes_nothing(state: ClipState, entry: Entry, now: Time)
    requires
        laws::said(entry) is None,
    ensures
        state.add(entry, now) == (state, Seq::<EffectView>::empty()),
{
}

/// A clear is remembered for as long as no later one comes, and touches nothing
/// else: the history, the log and what was forgotten stay as they are.
pub proof fn a_clear_touches_nothing_else(state: ClipState, entry: Entry, now: Time)
    requires
        laws::said(entry) == Some(EventView::Clear),
    ensures
        ({
            let (after, effects) = state.add(entry, now);
            &&& after == (ClipState { cleared_through: after.cleared_through, ..state })
            &&& after.cleared_through == (if is_later(entry.clock, state.cleared_through) {
                entry.clock
            } else {
                state.cleared_through
            })
            &&& effects == (if entry.durable {
                seq![EffectView::Store(entry)]
            } else {
                Seq::empty()
            })
        }),
{
    lemma_later(entry.clock, state.cleared_through);
}

/// Forgetting an entry takes that one out of the history and the log, and out
/// of what lies here, and touches no other.
pub proof fn forgetting_touches_nothing_else(
    state: ClipState,
    entry: Entry,
    target: EntryId,
    now: Time,
)
    requires
        laws::said(entry) == Some(EventView::Forget(target)),
    ensures
        ({
            let (after, effects) = state.add(entry, now);
            &&& after == (ClipState {
                items: state.items.remove(target),
                ready: state.ready.remove(target),
                log: LogState { entries: state.log.entries.remove(target), ..state.log },
                forgotten: state.forgotten.insert(target),
                ..state
            })
            &&& effects == (if entry.durable {
                seq![EffectView::Forget(target), EffectView::Store(entry)]
            } else {
                seq![EffectView::Forget(target)]
            })
        }),
{
    let (after, effects) = state.add(entry, now);
    if entry.durable {
        assert(effects =~= seq![EffectView::Forget(target), EffectView::Store(entry)]);
    } else {
        assert(effects =~= seq![EffectView::Forget(target)]);
    }
}

/// What leaving some entries out comes to.
proof fn lemma_leaving_out(state: ClipState, ids: Seq<EntryId>)
    ensures
        ({
            let after = state.without_all(ids);
            &&& forall|id: EntryId| #[trigger]
                after.items.contains_key(id) == (state.items.contains_key(id) && !ids.contains(id))
            &&& forall|id: EntryId| #[trigger]
                after.items.contains_key(id) ==> after.items[id] == state.items[id]
            &&& forall|id: EntryId| #[trigger]
                after.ready.contains_key(id) == (state.ready.contains_key(id) && !ids.contains(id))
            &&& forall|id: EntryId| #[trigger]
                after.ready.contains_key(id) ==> after.ready[id] == state.ready[id]
            &&& forall|id: EntryId| #[trigger]
                after.log.entries.contains_key(id) == (state.log.entries.contains_key(id)
                    && !ids.contains(id))
            &&& forall|id: EntryId| #[trigger]
                after.log.entries.contains_key(id) ==> after.log.entries[id]
                    == state.log.entries[id]
            &&& after == (ClipState {
                items: after.items,
                ready: after.ready,
                log: LogState { entries: after.log.entries, ..state.log },
                ..state
            })
        }),
    decreases ids.len(),
{
    if ids.len() > 0 {
        let rest = ids.drop_last();
        lemma_leaving_out(state, rest);
        assert forall|id: EntryId| #[trigger]
            ids.contains(id) == (rest.contains(id) || id == ids.last()) by {
            lemma_contains(ids, id);
        }
    }
}

proof fn lemma_contains(ids: Seq<EntryId>, id: EntryId)
    requires
        ids.len() > 0,
    ensures
        ids.contains(id) == (ids.drop_last().contains(id) || id == ids.last()),
{
    let rest = ids.drop_last();
    if ids.contains(id) {
        let i = choose|i: int| 0 <= i < ids.len() && ids[i] == id;
        if i < rest.len() {
            assert(rest[i] == id);
        }
    }
    if rest.contains(id) {
        let i = choose|i: int| 0 <= i < rest.len() && rest[i] == id;
        assert(ids[i] == id);
    }
    assert(ids[ids.len() - 1] == ids.last());
}

proof fn lemma_forgets(ids: Seq<EntryId>, id: EntryId)
    ensures
        model::forgets(ids).contains(EffectView::Forget(id)) == ids.contains(id),
{
    let all = model::forgets(ids);
    if ids.contains(id) {
        let i = choose|i: int| 0 <= i < ids.len() && ids[i] == id;
        assert(all[i] == EffectView::Forget(id));
    }
    if all.contains(EffectView::Forget(id)) {
        let i = choose|i: int| 0 <= i < all.len() && all[i] == EffectView::Forget(id);
        assert(ids[i] == id);
    }
}

/// A purge takes out of the history what was written up to it, each with its
/// file, and touches nothing that was written later.
pub proof fn a_purge_touches_nothing_later(
    state: ClipState,
    entry: Entry,
    now: Time,
    id: EntryId,
)
    requires
        state.valid(),
        laws::said(entry) == Some(EventView::Purge),
    ensures
        ({
            let (after, effects) = state.add(entry, now);
            let goes = state.items.contains_key(id) && !is_later(
                state.items[id].clock,
                entry.clock,
            );
            &&& after.items.contains_key(id) == (state.items.contains_key(id) && !goes)
            &&& after.items.contains_key(id) ==> after.items[id] == state.items[id]
            &&& after.log.entries.contains_key(id) == (state.log.entries.contains_key(id) && !goes)
            &&& after.log.entries.contains_key(id) ==> after.log.entries[id]
                == state.log.entries[id]
            &&& after.ready.contains_key(id) == (state.ready.contains_key(id) && !goes)
            &&& effects.contains(EffectView::Forget(id)) == goes
            &&& effects.contains(EffectView::Store(entry)) == entry.durable
            &&& after == (ClipState {
                items: after.items,
                ready: after.ready,
                log: LogState { entries: after.log.entries, ..state.log },
                purged_through: after.purged_through,
                ..state
            })
            &&& after.purged_through == (if is_later(entry.clock, state.purged_through) {
                entry.clock
            } else {
                state.purged_through
            })
        }),
{
    let (after, effects) = state.add(entry, now);
    let p = |item: ItemView| item.clock.rank() <= entry.clock.rank();
    let stale = model::named_in_order(state.items, p);
    let set = state.items.dom().filter(|id: EntryId| p(state.items[id]));
    ordmap::lemma_in_order_holds(set);
    assert(set.contains(id) == (state.items.contains_key(id) && p(state.items[id])));
    lemma_later(entry.clock, state.purged_through);
    if state.items.contains_key(id) {
        lemma_later(state.items[id].clock, entry.clock);
    }
    lemma_leaving_out(
        ClipState { purged_through: state.purged_through.later(entry.clock), ..state },
        stale,
    );
    lemma_forgets(stale, id);
    let gone = model::forgets(stale);
    let kept = model::stores(entry);
    assert(effects == gone + kept);
    if gone.contains(EffectView::Forget(id)) {
        let i = choose|i: int| 0 <= i < gone.len() && gone[i] == EffectView::Forget(id);
        assert(effects[i] == EffectView::Forget(id));
    }
    if effects.contains(EffectView::Forget(id)) {
        let i = choose|i: int| 0 <= i < effects.len() && effects[i] == EffectView::Forget(id);
        assert(i < gone.len());
        assert(gone[i] == EffectView::Forget(id));
    }
    if entry.durable {
        assert(effects[gone.len() as int] == EffectView::Store(entry));
    }
    if effects.contains(EffectView::Store(entry)) {
        let i = choose|i: int| 0 <= i < effects.len() && effects[i] == EffectView::Store(entry);
        assert(i >= gone.len()) by {
            if i < gone.len() {
                assert(gone[i] == EffectView::Forget(stale[i]));
            }
        }
    }
}

/// What the log drops for want of room leaves the history and the disk, and
/// touches nothing else.
pub proof fn what_the_log_drops_leaves_the_history(state: ClipState, id: EntryId, now: Time)
    ensures
        state.take(Change::Dropped(id), now).0 == (ClipState {
            items: state.items.remove(id),
            ..state
        }),
        state.take(Change::Dropped(id), now).1 == seq![EffectView::Forget(id)],
{
}

/// Whether the lifetime of a history entry has run out.
pub open spec fn is_over(item: ItemView, now: Time) -> bool {
    item.expires_at matches Some(end) && end.nanos <= now.nanos
}

proof fn lemma_expire_all(state: ClipState, ids: Seq<EntryId>)
    ensures
        ({
            let after = state.expire_all(ids);
            &&& forall|id: EntryId| #[trigger]
                after.items.contains_key(id) == (state.items.contains_key(id) && !ids.contains(id))
            &&& forall|id: EntryId| #[trigger]
                after.items.contains_key(id) ==> after.items[id] == state.items[id]
            &&& forall|id: EntryId| #[trigger]
                after.log.entries.contains_key(id) == (state.log.entries.contains_key(id)
                    && !ids.contains(id))
            &&& forall|id: EntryId| #[trigger]
                after.log.entries.contains_key(id) ==> after.log.entries[id]
                    == state.log.entries[id]
            &&& forall|id: EntryId| #[trigger]
                after.ready.contains_key(id) == (state.ready.contains_key(id) && !ids.contains(id))
            &&& after == (ClipState {
                items: after.items,
                ready: after.ready,
                log: LogState { entries: after.log.entries, ..state.log },
                cleared_through: after.cleared_through,
                ..state
            })
        }),
    decreases ids.len(),
{
    if ids.len() > 0 {
        lemma_expire_all(state, ids.drop_last());
        assert forall|id: EntryId| #[trigger]
            ids.contains(id) == (ids.drop_last().contains(id) || id == ids.last()) by {
            lemma_contains(ids, id);
        }
    }
}

proof fn lemma_expired(state: ClipState, now: Time, id: EntryId)
    requires
        state.items.dom().finite(),
    ensures
        state.expired(now).contains(id) == (state.items.contains_key(id) && is_over(
            state.items[id],
            now,
        )),
{
    let p = |item: ItemView| model::due(item.expires_at, now);
    let set = state.items.dom().filter(|id: EntryId| p(state.items[id]));
    ordmap::lemma_in_order_holds(set);
    assert(set.contains(id) == (state.items.contains_key(id) && p(state.items[id])));
}

/// What has run out at a moment, and nothing else, leaves the history, the log
/// and the disk then.
pub proof fn what_has_run_out_leaves(state: ClipState, now: Time, at: Time, id: EntryId)
    requires
        state.valid(),
    ensures
        ({
            let (after, effects) = state.expire(now, at);
            let goes = state.items.contains_key(id) && is_over(state.items[id], now);
            &&& after.items.contains_key(id) == (state.items.contains_key(id) && !goes)
            &&& after.items.contains_key(id) ==> after.items[id] == state.items[id]
            &&& after.log.entries.contains_key(id) == (state.log.entries.contains_key(id) && !goes)
            &&& after.log.entries.contains_key(id) ==> after.log.entries[id]
                == state.log.entries[id]
            &&& after.ready.contains_key(id) == (state.ready.contains_key(id) && !goes)
            &&& effects.contains(EffectView::Forget(id)) == goes
            &&& after.forgotten == state.forgotten
            &&& after.purged_through == state.purged_through
            &&& after.pause == state.pause
        }),
{
    let gone = state.expired(now);
    let left = state.expire_all(gone);
    lemma_expired(state, now, id);
    lemma_expire_all(state, gone);
    lemma_forgets(gone, id);
    let first = model::forgets(gone);
    let more = left.reconcile(at).1;
    let effects = state.expire(now, at).1;
    assert(effects == first + more);
    if first.contains(EffectView::Forget(id)) {
        let i = choose|i: int| 0 <= i < first.len() && first[i] == EffectView::Forget(id);
        assert(effects[i] == EffectView::Forget(id));
    }
    if effects.contains(EffectView::Forget(id)) {
        let i = choose|i: int| 0 <= i < effects.len() && effects[i] == EffectView::Forget(id);
        assert(i < first.len()) by {
            if i >= first.len() {
                assert(more[i - first.len()] == EffectView::Forget(id));
            }
        }
        assert(first[i] == EffectView::Forget(id));
    }
}

/// A lifetime is kept to the nanosecond: a copy that comes in after it was
/// written is in the history at every moment before its lifetime is over, and
/// at none after. One that was given none stays.
pub proof fn a_lifetime_is_kept(
    state: ClipState,
    entry: Entry,
    copy: CopyView,
    now: Time,
    then: Time,
    at: Time,
)
    requires
        state.valid(),
        laws::said(entry) == Some(EventView::Copy(copy)),
        copy.reps.len() > 0,
        comes_in(state, entry, copy, now),
        entry.clock.millis * 1_000_000 <= now.nanos,
    ensures
        ({
            let held = state.add(entry, now).0;
            let after = held.expire(then, at).0;
            &&& held.items.contains_key(entry.id)
            &&& copy.ttl matches Some(ttl) ==> (after.items.contains_key(entry.id) <==> then.nanos
                < entry.clock.millis * 1_000_000 + ttl * 1_000_000_000)
            &&& copy.ttl is None ==> after.items.contains_key(entry.id)
        }),
{
    a_copy_comes_into_the_history(state, entry, copy, now);
    let held = state.add(entry, now).0;
    assert(held.valid()) by {
        assert forall|id: EntryId| #[trigger] held.items.contains_key(id) implies held.items[id].id
            == id by {
            if id != entry.id {
                assert(held.items.remove(entry.id).contains_key(id));
                assert(state.items.remove(entry.id).contains_key(id));
                assert(held.items[id] == held.items.remove(entry.id)[id]);
            }
        }
        assert(held.items =~= state.items.insert(entry.id, held.items[entry.id])) by {
            assert(held.items.remove(entry.id).insert(entry.id, held.items[entry.id])
                =~= held.items);
            assert(state.items.remove(entry.id).insert(entry.id, held.items[entry.id])
                =~= state.items.insert(entry.id, held.items[entry.id]));
        }
    }
    what_has_run_out_leaves(held, then, at, entry.id);
}

/// Whether a history entry can be the selection: it was written after the last
/// clear.
pub open spec fn can_be_selected(state: ClipState, id: EntryId) -> bool {
    state.items.contains_key(id) && is_later(state.items[id].clock, state.cleared_through)
}

proof fn lemma_newest_among(items: Map<EntryId, ItemView>, some: Set<EntryId>)
    requires
        some.finite(),
        some.len() > 0,
        some.subset_of(items.dom()),
    ensures
        exists|id: EntryId|
            #![trigger items[id]]
            some.contains(id) && forall|other: EntryId| #[trigger]
                some.contains(other) ==> model::item_order(items[other]) <= model::item_order(
                    items[id],
                ),
    decreases some.len(),
{
    let one = some.choose();
    let rest = some.remove(one);
    if rest.len() == 0 {
        assert(items[one] == items[one]);
        assert forall|other: EntryId| #[trigger] some.contains(other) implies model::item_order(
            items[other],
        ) <= model::item_order(items[one]) by {
            if other != one {
                assert(rest.contains(other));
            }
        }
    } else {
        lemma_newest_among(items, rest);
        let best = choose|id: EntryId|
            #![trigger items[id]]
            rest.contains(id) && forall|other: EntryId| #[trigger]
                rest.contains(other) ==> model::item_order(items[other]) <= model::item_order(
                    items[id],
                );
        let id = if model::item_order(items[one]) > model::item_order(items[best]) {
            one
        } else {
            best
        };
        assert forall|other: EntryId| #[trigger] some.contains(other) implies model::item_order(
            items[other],
        ) <= model::item_order(items[id]) by {
            if other != one {
                assert(rest.contains(other));
            }
        }
        assert(some.contains(id) && items[id] == items[id]);
    }
}

/// The newest history entry that was written after the last clear is the
/// selection: no other was written later, and of two written at once it is the
/// one whose name comes last. There is none only when nothing was written after
/// the last clear.
pub proof fn the_newest_is_the_selection(state: ClipState, other: EntryId)
    requires
        state.valid(),
        can_be_selected(state, other),
    ensures
        state.selected() matches Some(id) && can_be_selected(state, id) && !is_later(
            state.items[other].clock,
            state.items[id].clock,
        ) && (state.items[other].clock == state.items[id].clock ==> other.rank() <= id.rank()),
{
    let some = state.items.dom().filter(|id: EntryId| can_be_selected(state, id));
    assert(some.contains(other));
    assert(some.len() > 0) by {
        if some.len() == 0 {
            assert(some =~= Set::empty());
        }
    }
    lemma_newest_among(state.items, some);
    let id = choose|id: EntryId|
        #![trigger state.items[id]]
        some.contains(id) && forall|other: EntryId| #[trigger]
            some.contains(other) ==> model::item_order(state.items[other]) <= model::item_order(
                state.items[id],
            );
    lemma_later(state.items[id].clock, state.cleared_through);
    assert forall|one: EntryId| #[trigger]
        state.items.contains_key(one) && state.items[one].clock.rank()
            > state.cleared_through.rank() implies model::item_order(state.items[one])
        <= model::item_order(state.items[id]) by {
        lemma_later(state.items[one].clock, state.cleared_through);
        assert(some.contains(one));
    }
    assert(state.is_selected(id));
    model::lemma_selected(state, id);
    lemma_order(state.items[other], state.items[id]);
}

/// Where an entry stands goes by its clock first, and by its name then.
proof fn lemma_order(a: ItemView, b: ItemView)
    requires
        model::item_order(a) <= model::item_order(b),
    ensures
        !is_later(a.clock, b.clock),
        a.clock == b.clock ==> a.id.rank() <= b.id.rank(),
{
    lemma_name_rank(a.id);
    lemma_name_rank(b.id);
    lemma_later(a.clock, b.clock);
    if a.clock.rank() > b.clock.rank() {
        assert(a.clock.rank() * crate::log::names() >= (b.clock.rank() + 1) * crate::log::names());
    }
}

proof fn lemma_name_rank(id: EntryId)
    ensures
        0 <= id.rank() < crate::log::names(),
{
}

/// Nothing is selected when nothing was written after the last clear.
pub proof fn nothing_is_selected_after_a_clear(state: ClipState)
    requires
        forall|id: EntryId| !#[trigger] can_be_selected(state, id),
    ensures
        state.selected() is None,
{
    if exists|id: EntryId| state.is_selected(id) {
        let id = choose|id: EntryId| state.is_selected(id);
        assert(state.is_selected(id));
        lemma_later(state.items[id].clock, state.cleared_through);
        assert(can_be_selected(state, id));
    }
}

/// Bringing the clipboard in line changes nothing but what is on it. When the
/// selection is not on it yet it is put there, when nothing is selected any more
/// the clipboard is emptied, and otherwise nothing is done; nor is anything done
/// while it is paused.
pub proof fn the_clipboard_follows_the_selection(state: ClipState, now: Time)
    ensures
        ({
            let (after, effects) = state.reconcile(now);
            &&& after == (ClipState { applied: after.applied, ..state })
            &&& match state.selected() {
                Some(id) => if state.pause.apply.running(now) && state.copied(id) is Some
                    && state.applied != Some(id) {
                    &&& after.applied == Some(id)
                    &&& effects.last() is Apply
                    &&& 1 <= effects.len() <= 2
                    &&& effects.len() == 2 ==> effects[0] == EffectView::Fetch(id)
                    &&& effects.len() == 2 <==> state.copied(id)->0.files.len() > 0
                        && !state.copied(id)->0.secret && id.origin != state.log.origin
                        && !state.ready.contains_key(id)
                } else {
                    effects.len() == 0 && after.applied == state.applied
                },
                None => if state.pause.apply.running(now) && state.applied is Some {
                    effects == seq![EffectView::ClearSelection] && after.applied is None
                } else {
                    effects.len() == 0 && after.applied == state.applied
                },
            }
        }),
{
}

/// Switching changes the directions that are named, and nothing else.
pub proof fn switching_changes_what_is_named(
    state: ClipState,
    capture: Option<Switch>,
    apply: Option<Switch>,
)
    ensures
        ({
            let after = state.switched(capture, apply);
            &&& after == (ClipState { pause: after.pause, ..state })
            &&& capture matches Some(switch) ==> after.pause.capture == switch
            &&& capture is None ==> after.pause.capture == state.pause.capture
            &&& apply matches Some(switch) ==> after.pause.apply == switch
            &&& apply is None ==> after.pause.apply == state.pause.apply
        }),
{
}

/// Once the files of an entry are here, that is where they are; and what is on
/// the clipboard is put there anew if they are its files, and otherwise left.
pub proof fn files_that_came_are_known(state: ClipState, id: EntryId, tree: Seq<u8>, now: Time)
    requires
        state.valid(),
    ensures
        ({
            let (after, effects) = state.materialize(id, tree, now);
            &&& after.ready == state.ready.insert(id, tree)
            &&& after == (ClipState { ready: after.ready, applied: after.applied, ..state })
            &&& state.applied == Some(id) && state.selected() == Some(id) && state.copied(
                id,
            ) is Some && state.pause.apply.running(now) ==> effects.len() == 1
                && effects[0] is Apply && after.applied == Some(id)
            &&& state.applied != Some(id) && state.applied == state.selected() ==> effects.len()
                == 0 && after.applied == state.applied
        }),
{
    let set = ClipState {
        ready: state.ready.insert(id, tree),
        applied: if state.applied == Some(id) {
            None
        } else {
            state.applied
        },
        ..state
    };
    laws::lemma_same_selection(state, set);
}


/// Whether a clipboard can take one more event of its own machine: the log has
/// room for it, and there are names and readings left.
pub open spec fn can_write(state: ClipState, event: EventView) -> bool {
    &&& state.valid()
    &&& state.log.next_seq < u64::MAX
    &&& state.log.clock != (Hlc { millis: u64::MAX, counter: u16::MAX })
    &&& store::has_room(
        state.log,
        log::payload_bytes(log::payload_of(codec::encoding(event))).len(),
    )
    &&& codec::legible(event)
}

/// The entry that the next event is written as.
pub open spec fn next_entry(state: ClipState, event: EventView, durable: bool, now: Time) -> Entry {
    Entry {
        id: EntryId { origin: state.log.origin, seq: state.log.next_seq },
        clock: state.write(event, durable, now).0.log.clock,
        payload: log::payload_of(codec::encoding(event)),
        durable,
    }
}

proof fn lemma_written(state: ClipState, event: EventView, durable: bool, now: Time)
    requires
        can_write(state, event),
    ensures
        ({
            let (kept, changes) = state.write(event, durable, now);
            let entry = next_entry(state, event, durable, now);
            &&& kept == (ClipState { log: kept.log, ..state })
            &&& kept.log.entries == state.log.entries.insert(entry.id, entry)
            &&& kept.fold(changes, now) == kept.add(entry, now)
            &&& laws::said(entry) == Some(event)
            &&& is_later(entry.clock, state.log.clock)
            &&& kept.valid()
            &&& kept.log.origin == state.log.origin
            &&& entry.clock.millis * 1_000_000 + 1_000_000 > now.nanos || now.nanos / 1_000_000
                > u64::MAX
        }),
{
    let (kept, changes) = state.write(event, durable, now);
    let entry = next_entry(state, event, durable, now);
    store::what_is_written_is_kept(
        state.log,
        log::payload_of(codec::encoding(event)),
        durable,
        now.whole_millis(),
    );
    assert(changes[0] == Change::Added(entry));
    assert(changes.drop_last() =~= Seq::<Change>::empty());
    assert(kept.fold(changes.drop_last(), now) == (kept, Seq::<EffectView>::empty()));
    let (after, more) = kept.add(entry, now);
    assert(Seq::<EffectView>::empty() + more =~= more);
    assert(changes.last() == changes[0]);
    store::weights_add_up(state.log.entries, entry);
    assert(kept.log.entries.dom() =~= state.log.entries.dom().insert(entry.id));
    assert(kept.log.valid());
}

/// Whether nothing in a history was written later than this machine knows of.
pub open spec fn nothing_is_ahead(state: ClipState) -> bool {
    &&& !is_later(state.purged_through, state.log.clock)
    &&& !is_later(state.cleared_through, state.log.clock)
    &&& forall|id: EntryId| #[trigger]
        state.items.contains_key(id) ==> !is_later(state.items[id].clock, state.log.clock)
}

proof fn lemma_copy_folded(state: ClipState, copy: CopyView, durable: bool, now: Time)
    requires
        can_write(state, EventView::Copy(copy)),
        nothing_is_ahead(state),
        copy.reps.len() > 0,
        now.nanos / 1_000_000 <= u64::MAX,
        files::manifest::refusal(copy.files) is None,
        copy.files.len() > 0 || sharing::total_bytes(copy.reps) > 0,
        copy.ttl != Some(0u32),
        !state.forgotten.contains(state.log.next_id()),
    ensures
        ({
            let entry = next_entry(state, EventView::Copy(copy), durable, now);
            let (kept, changes) = state.write(EventView::Copy(copy), durable, now);
            let (folded, effects) = kept.fold(changes, now);
            &&& entry.id == state.log.next_id()
            &&& folded.items.contains_key(entry.id)
            &&& shows(folded.items[entry.id], entry, copy, now)
            &&& folded.items.remove(entry.id) == state.items.remove(entry.id)
            &&& folded.log.entries == state.log.entries.insert(entry.id, entry)
            &&& folded.copied(entry.id) == Some(copy)
            &&& folded.selected() == Some(entry.id)
            &&& folded == (ClipState { items: folded.items, log: folded.log, ..state })
            &&& folded.log.origin == state.log.origin
            &&& folded.valid()
            &&& effects == (if durable {
                seq![EffectView::Store(entry)]
            } else {
                Seq::empty()
            })
        }),
{
    let event = EventView::Copy(copy);
    let entry = next_entry(state, event, durable, now);
    lemma_written(state, event, durable, now);
    let kept = state.write(event, durable, now).0;
    assert(comes_in(kept, entry, copy, now));
    a_copy_comes_into_the_history(kept, entry, copy, now);
    let folded = kept.add(entry, now).0;
    assert forall|id: EntryId| #[trigger] folded.items.contains_key(id) && id != entry.id implies
        state.items.contains_key(id) && folded.items[id] == state.items[id] by {
        assert(folded.items.remove(entry.id).contains_key(id));
        assert(state.items.remove(entry.id).contains_key(id));
        assert(folded.items.remove(entry.id)[id] == folded.items[id]);
    }
    assert(folded.items =~= state.items.insert(entry.id, folded.items[entry.id])) by {
        assert(folded.items.remove(entry.id).insert(entry.id, folded.items[entry.id])
            =~= folded.items);
        assert(state.items.remove(entry.id).insert(entry.id, folded.items[entry.id])
            =~= state.items.insert(entry.id, folded.items[entry.id]));
    }
    assert(folded.valid());
    assert(can_be_selected(folded, entry.id));
    the_newest_is_the_selection(folded, entry.id);
    let chosen = folded.selected()->0;
    if chosen != entry.id {
        assert(state.items.contains_key(chosen));
    }
}

/// What is copied is the selection from then on: the newest of the history, as
/// what it is, with everything else there left as it was; it is in the log for
/// others to fetch, it is put on the clipboard, and it is kept on the disk
/// unless it is a secret.
pub proof fn what_is_copied_is_the_selection(
    before: ClipState,
    settings: Settings,
    reps: Seq<RepView>,
    files: Seq<FileName>,
    secret: bool,
    ttl: Option<Span>,
    now: Time,
    after: ClipState,
    id: EntryId,
    effects: Vec<Effect>,
)
    requires
        state::copying(before, settings, reps, files, secret, ttl, now, after, Ok((id, effects))),
        ({
            let copy = CopyView {
                reps,
                secret,
                ttl: sharing::lifetime(secret, ttl, settings.secret_ttl),
                files,
            };
            can_write(before, EventView::Copy(copy)) && copy.ttl != Some(0u32)
        }),
        reps.len() > 0,
        nothing_is_ahead(before),
        now.nanos / 1_000_000 <= u64::MAX,
        !before.forgotten.contains(before.log.next_id()),
        before.applied != Some(before.log.next_id()),
        !before.ready.contains_key(before.log.next_id()),
    ensures
        ({
            let copy = CopyView {
                reps,
                secret,
                ttl: sharing::lifetime(secret, ttl, settings.secret_ttl),
                files,
            };
            let entry = next_entry(before, EventView::Copy(copy), !secret, now);
            &&& id == entry.id
            &&& after.items.contains_key(id)
            &&& shows(after.items[id], entry, copy, now)
            &&& after.items.remove(id) == before.items.remove(id)
            &&& after.log.entries == before.log.entries.insert(id, entry)
            &&& after.copied(id) == Some(copy)
            &&& after.selected() == Some(id)
            &&& before.pause.apply.running(now) ==> after.applied == Some(id)
                && state::effect_views(effects@).last() is Apply
            &&& state::effect_views(effects@).contains(EffectView::Store(entry)) == !secret
        }),
{
    let copy = CopyView {
        reps,
        secret,
        ttl: sharing::lifetime(secret, ttl, settings.secret_ttl),
        files,
    };
    let event = EventView::Copy(copy);
    assert(model::copy_event(reps, files, secret, ttl, settings.secret_ttl) == event);
    sharing::lemma_total(reps);
    lemma_copy_said(before, copy, !secret, now);
}

/// What saying a copy comes to.
pub proof fn lemma_copy_said(before: ClipState, copy: CopyView, durable: bool, now: Time)
    requires
        can_write(before, EventView::Copy(copy)),
        nothing_is_ahead(before),
        copy.reps.len() > 0,
        now.nanos / 1_000_000 <= u64::MAX,
        files::manifest::refusal(copy.files) is None,
        copy.files.len() > 0 || sharing::total_bytes(copy.reps) > 0,
        copy.ttl != Some(0u32),
        !before.forgotten.contains(before.log.next_id()),
        before.applied != Some(before.log.next_id()),
        !before.ready.contains_key(before.log.next_id()),
    ensures
        ({
            let (after, effects) = before.say(EventView::Copy(copy), durable, now);
            let entry = next_entry(before, EventView::Copy(copy), durable, now);
            let id = before.log.next_id();
            &&& id == entry.id
            &&& after.items.contains_key(id)
            &&& shows(after.items[id], entry, copy, now)
            &&& after.items.remove(id) == before.items.remove(id)
            &&& after.log.entries == before.log.entries.insert(id, entry)
            &&& after.copied(id) == Some(copy)
            &&& after.selected() == Some(id)
            &&& before.pause.apply.running(now) ==> after.applied == Some(id)
                && effects.last() is Apply
            &&& effects.contains(EffectView::Store(entry)) == durable
        }),
{
    let event = EventView::Copy(copy);
    lemma_copy_folded(before, copy, durable, now);
    let entry = next_entry(before, event, durable, now);
    let (kept, changes) = before.write(event, durable, now);
    let (folded, first) = kept.fold(changes, now);
    let (settled, more) = folded.reconcile(now);
    laws::lemma_same_selection(folded, settled);
    let all = before.say(event, durable, now).1;
    assert(all == first + more);
    lemma_stored(folded, first, now, entry, durable);
    if before.pause.apply.running(now) {
        the_clipboard_follows_the_selection(folded, now);
        assert(all.last() == more.last());
    }
}

proof fn lemma_stored(
    folded: ClipState,
    first: Seq<EffectView>,
    now: Time,
    entry: Entry,
    durable: bool,
)
    requires
        first == (if durable {
            seq![EffectView::Store(entry)]
        } else {
            Seq::empty()
        }),
    ensures
        (first + folded.reconcile(now).1).contains(EffectView::Store(entry)) == durable,
{
    let more = folded.reconcile(now).1;
    let all = first + more;
    if durable {
        assert(all[0] == EffectView::Store(entry));
    } else if all.contains(EffectView::Store(entry)) {
        let i = choose|i: int| 0 <= i < all.len() && all[i] == EffectView::Store(entry);
        assert(more[i] == EffectView::Store(entry));
    }
}

/// What an application copies is the selection from then on, as far as it fits:
/// the newest of the history, with everything else there left as it was, and in
/// the log for others to fetch. It is on the clipboard already, so nothing is
/// put there; and it is kept on the disk unless it is a secret.
pub proof fn what_is_captured_is_the_selection(
    before: ClipState,
    settings: Settings,
    captured: Captured,
    files: Seq<FileName>,
    now: Time,
    after: ClipState,
    effects: Vec<Effect>,
    n: int,
)
    requires
        state::capturing(before, settings, captured, files, now, after, Ok(effects)),
        before.pause.capture.running(now),
        !(before.selected() matches Some(id) && before.items[id].hash == files::blake3_hash(
            captured.selection@[0].1,
        )),
        sharing::total_bytes(captured.selection@) <= usize::MAX,
        sharing::most_that_fit(captured.selection@, settings.entry_cap(), n),
        ({
            let copy = CopyView {
                reps: captured.selection@.take(n),
                secret: captured.secret,
                ttl: sharing::lifetime(captured.secret, None, settings.secret_ttl),
                files,
            };
            &&& can_write(before, EventView::Copy(copy))
            &&& before.takes(EventView::Copy(copy))
            &&& copy.ttl != Some(0u32)
        }),
        files::manifest::refusal(files) is None,
        sharing::total_bytes(captured.selection@.take(n)) > 0,
        nothing_is_ahead(before),
        now.nanos / 1_000_000 <= u64::MAX,
        !before.forgotten.contains(before.log.next_id()),
    ensures
        ({
            let copy = CopyView {
                reps: captured.selection@.take(n),
                secret: captured.secret,
                ttl: sharing::lifetime(captured.secret, None, settings.secret_ttl),
                files,
            };
            let entry = next_entry(before, EventView::Copy(copy), !captured.secret, now);
            let id = before.log.next_id();
            &&& after.items.contains_key(id)
            &&& shows(after.items[id], entry, copy, now)
            &&& after.items.remove(id) == before.items.remove(id)
            &&& after.log.entries == before.log.entries.insert(id, entry)
            &&& after.copied(id) == Some(copy)
            &&& after.selected() == Some(id)
            &&& after.applied == Some(id)
            &&& state::effect_views(effects@) == (if captured.secret {
                Seq::empty()
            } else {
                seq![EffectView::Store(entry)]
            })
        }),
{
    let reps = captured.selection@;
    let cap = settings.entry_cap();
    sharing::lemma_fitted(reps, cap);
    sharing::lemma_first_fits(reps, n);
    let fitting = model::fitted(reps, cap)->0;
    let m = choose|m: int| #[trigger] sharing::most_that_fit(reps, cap, m) && fitting == reps.take(m);
    sharing::lemma_one_that_fits(reps, cap, n, m);
    let copy = CopyView {
        reps: reps.take(n),
        secret: captured.secret,
        ttl: sharing::lifetime(captured.secret, None, settings.secret_ttl),
        files,
    };
    let event = EventView::Copy(copy);
    assert(model::copy_event(fitting, files, captured.secret, None, settings.secret_ttl) == event);
    assert(fitting[0] == reps[0]);
    lemma_copy_folded(before, copy, !captured.secret, now);
    let entry = next_entry(before, event, !captured.secret, now);
    let (kept, changes) = before.write(event, !captured.secret, now);
    let (folded, first) = kept.fold(changes, now);
    let set = ClipState { applied: Some(before.log.next_id()), ..folded };
    laws::lemma_same_selection(folded, set);
    assert(first + Seq::<EffectView>::empty() =~= first);
}


/// What is said is taken into account at once: the event is in the log for
/// others to fetch, and on the disk.
proof fn lemma_said(before: ClipState, event: EventView, now: Time)
    requires
        can_write(before, event),
        event !is Copy,
    ensures
        ({
            let entry = next_entry(before, event, true, now);
            let (kept, changes) = before.write(event, true, now);
            let (folded, first) = kept.fold(changes, now);
            let (after, effects) = before.say(event, true, now);
            &&& (folded, first) == kept.add(entry, now)
            &&& after == (ClipState { applied: after.applied, ..folded })
            &&& after.selected() == folded.selected()
            &&& first.len() > 0
            &&& first.last() == EffectView::Store(entry)
            &&& effects == first + folded.reconcile(now).1
            &&& effects.contains(EffectView::Store(entry))
            &&& laws::said(entry) == Some(event)
            &&& is_later(entry.clock, before.log.clock)
            &&& kept == (ClipState { log: kept.log, ..before })
            &&& kept.valid()
            &&& kept.log.entries == before.log.entries.insert(entry.id, entry)
        }),
{
    let entry = next_entry(before, event, true, now);
    lemma_written(before, event, true, now);
    let (kept, changes) = before.write(event, true, now);
    let (folded, first) = kept.fold(changes, now);
    let (after, effects) = before.say(event, true, now);
    assert(effects[first.len() - 1] == first.last());
    if event is Purge {
        let p = |item: ItemView| item.clock.rank() <= entry.clock.rank();
        let stale = model::named_in_order(kept.items, p);
        lemma_leaving_out(
            ClipState { purged_through: kept.purged_through.later(entry.clock), ..kept },
            stale,
        );
    }
    assert forall|id: EntryId| #[trigger] folded.items.contains_key(id) implies folded.items[id].id
        == id by {
        assert(kept.items.contains_key(id));
    }
    laws::lemma_same_selection(folded, after);
}

/// Clearing empties the clipboard and keeps the history: nothing is selected
/// any more, and what is on the clipboard is taken off it.
pub proof fn clearing_empties_the_clipboard(
    before: ClipState,
    now: Time,
    after: ClipState,
    effects: Vec<Effect>,
)
    requires
        state::spoken(before, EventView::Clear, now, after, Ok(effects)),
        can_write(before, EventView::Clear),
        nothing_is_ahead(before),
    ensures
        after.items == before.items,
        after.selected() is None,
        before.pause.apply.running(now) ==> after.applied is None,
        before.pause.apply.running(now) && before.applied is Some ==> state::effect_views(
            effects@,
        ).last() == EffectView::ClearSelection,
        after.log.entries.contains_key(before.log.next_id()),
        forall|id: EntryId| #[trigger]
            before.log.entries.contains_key(id) ==> after.log.entries.contains_key(id)
                && after.log.entries[id] == before.log.entries[id],
{
    lemma_cleared(before, now);
}

/// What saying a clear comes to.
pub proof fn lemma_cleared(before: ClipState, now: Time)
    requires
        can_write(before, EventView::Clear),
        nothing_is_ahead(before),
    ensures
        ({
            let (after, effects) = before.say(EventView::Clear, true, now);
            &&& after.items == before.items
            &&& after.selected() is None
            &&& before.pause.apply.running(now) ==> after.applied is None
            &&& before.pause.apply.running(now) && before.applied is Some ==> effects.last()
                == EffectView::ClearSelection
            &&& after.log.entries.contains_key(before.log.next_id())
            &&& forall|id: EntryId| #[trigger]
                before.log.entries.contains_key(id) ==> after.log.entries.contains_key(id)
                    && after.log.entries[id] == before.log.entries[id]
        }),
{
    let event = EventView::Clear;
    lemma_said(before, event, now);
    let entry = next_entry(before, event, true, now);
    let kept = before.write(event, true, now).0;
    a_clear_touches_nothing_else(kept, entry, now);
    let folded = kept.add(entry, now).0;
    assert forall|id: EntryId| !#[trigger] can_be_selected(folded, id) by {
        if folded.items.contains_key(id) {
            assert(before.items.contains_key(id));
        }
    }
    nothing_is_selected_after_a_clear(folded);
    let effects = before.say(event, true, now).1;
    let more = folded.reconcile(now).1;
    if more.len() > 0 {
        assert(effects.last() == more.last());
    }
}

/// Forgetting an entry takes it out of the history, the log and the disk, here
/// and for good, and leaves every other entry.
pub proof fn forgetting_takes_out_the_one(
    before: ClipState,
    id: EntryId,
    now: Time,
    after: ClipState,
    effects: Vec<Effect>,
)
    requires
        state::spoken(before, EventView::Forget(id), now, after, Ok(effects)),
        can_write(before, EventView::Forget(id)),
        id != before.log.next_id(),
    ensures
        after.items == before.items.remove(id),
        !after.log.entries.contains_key(id),
        after.forgotten == before.forgotten.insert(id),
        after.log.entries.contains_key(before.log.next_id()),
        forall|other: EntryId|
            other != id && #[trigger] before.log.entries.contains_key(other)
                ==> after.log.entries.contains_key(other) && after.log.entries[other]
                == before.log.entries[other],
        state::effect_views(effects@).contains(EffectView::Forget(id)),
{
    lemma_forgot(before, id, now);
}

/// What saying a forget comes to.
pub proof fn lemma_forgot(before: ClipState, id: EntryId, now: Time)
    requires
        can_write(before, EventView::Forget(id)),
        id != before.log.next_id(),
    ensures
        ({
            let (after, effects) = before.say(EventView::Forget(id), true, now);
            &&& after.items == before.items.remove(id)
            &&& !after.log.entries.contains_key(id)
            &&& after.forgotten == before.forgotten.insert(id)
            &&& after.log.entries.contains_key(before.log.next_id())
            &&& forall|other: EntryId|
                other != id && #[trigger] before.log.entries.contains_key(other)
                    ==> after.log.entries.contains_key(other) && after.log.entries[other]
                    == before.log.entries[other]
            &&& effects.contains(EffectView::Forget(id))
        }),
{
    let event = EventView::Forget(id);
    lemma_said(before, event, now);
    let entry = next_entry(before, event, true, now);
    let kept = before.write(event, true, now).0;
    forgetting_touches_nothing_else(kept, entry, id, now);
    let (folded, first) = kept.add(entry, now);
    assert(before.say(event, true, now).1[0] == first[0]);
}

/// A purge empties the history, each entry of it with its file, and leaves
/// nothing selected.
pub proof fn a_purge_empties_the_history(
    before: ClipState,
    now: Time,
    after: ClipState,
    effects: Vec<Effect>,
)
    requires
        state::spoken(before, EventView::Purge, now, after, Ok(effects)),
        can_write(before, EventView::Purge),
        nothing_is_ahead(before),
    ensures
        after.items == Map::<EntryId, ItemView>::empty(),
        after.selected() is None,
        forall|id: EntryId|
            before.items.contains_key(id) ==> #[trigger] state::effect_views(effects@).contains(
                EffectView::Forget(id),
            ),
        forall|id: EntryId|
            before.items.contains_key(id) && id != before.log.next_id() ==> !(
            #[trigger] after.log.entries.contains_key(id)),
        forall|id: EntryId|
            !before.items.contains_key(id) && #[trigger] before.log.entries.contains_key(id)
                ==> after.log.entries.contains_key(id),
{
    let event = EventView::Purge;
    lemma_said(before, event, now);
    let entry = next_entry(before, event, true, now);
    let kept = before.write(event, true, now).0;
    let first = kept.add(entry, now).1;
    lemma_purged(before, now);
    assert forall|id: EntryId| before.items.contains_key(id) implies #[trigger] state::effect_views(
        effects@,
    ).contains(EffectView::Forget(id)) by {
        a_purge_touches_nothing_later(kept, entry, now, id);
        let i = choose|i: int| 0 <= i < first.len() && first[i] == EffectView::Forget(id);
        assert(state::effect_views(effects@)[i] == EffectView::Forget(id));
    }
    assert forall|id: EntryId|
        before.items.contains_key(id) && id != before.log.next_id() implies !(
    #[trigger] after.log.entries.contains_key(id)) by {
        a_purge_touches_nothing_later(kept, entry, now, id);
    }
    assert forall|id: EntryId|
        !before.items.contains_key(id) && #[trigger] before.log.entries.contains_key(
            id,
        ) implies after.log.entries.contains_key(id) by {
        a_purge_touches_nothing_later(kept, entry, now, id);
    }
}

/// What saying a purge comes to.
pub proof fn lemma_purged(before: ClipState, now: Time)
    requires
        can_write(before, EventView::Purge),
        nothing_is_ahead(before),
    ensures
        before.say(EventView::Purge, true, now).0.items == Map::<EntryId, ItemView>::empty(),
        before.say(EventView::Purge, true, now).0.selected() is None,
{
    let event = EventView::Purge;
    lemma_said(before, event, now);
    let entry = next_entry(before, event, true, now);
    let kept = before.write(event, true, now).0;
    let folded = kept.add(entry, now).0;
    assert forall|id: EntryId| !#[trigger] folded.items.contains_key(id) by {
        a_purge_touches_nothing_later(kept, entry, now, id);
    }
    assert(folded.items =~= Map::<EntryId, ItemView>::empty());
    assert forall|id: EntryId| !#[trigger] can_be_selected(folded, id) by {}
    nothing_is_selected_after_a_clear(folded);
}

/// Whether an entry takes another one out of the history.
pub open spec fn takes_out(entry: Entry, id: EntryId, clock: Hlc) -> bool {
    match laws::said(entry) {
        Some(EventView::Forget(target)) => target == id,
        Some(EventView::Purge) => !is_later(clock, entry.clock),
        _ => false,
    }
}

/// What is in the history stays there as it is, whatever arrives, unless it is
/// forgotten or purged.
pub proof fn what_is_in_the_history_stays(
    state: ClipState,
    entries: Seq<Entry>,
    now: Time,
    id: EntryId,
)
    requires
        state.valid(),
        state.items.contains_key(id),
        forall|i: int|
            0 <= i < entries.len() ==> (#[trigger] entries[i]).id != id && !takes_out(
                entries[i],
                id,
                state.items[id].clock,
            ),
    ensures
        state.fold(laws::arrivals(entries), now).0.items.contains_key(id),
        state.fold(laws::arrivals(entries), now).0.items[id] == state.items[id],
        state.fold(laws::arrivals(entries), now).0.items.dom().finite(),
        state.log.entries.contains_key(id) ==> state.fold(
            laws::arrivals(entries),
            now,
        ).0.log.entries.contains_key(id),
    decreases entries.len(),
{
    if entries.len() > 0 {
        let rest = entries.drop_last();
        assert(laws::arrivals(entries).drop_last() =~= laws::arrivals(rest));
        assert forall|i: int| 0 <= i < rest.len() implies (#[trigger] rest[i]).id != id
            && !takes_out(rest[i], id, state.items[id].clock) by {
            assert(rest[i] == entries[i]);
        }
        what_is_in_the_history_stays(state, rest, now, id);
        let held = state.fold(laws::arrivals(rest), now).0;
        let last = entries.last();
        assert(entries[entries.len() - 1] == last);
        lemma_one_more(held, last, now, id);
    }
}

proof fn lemma_one_more(held: ClipState, last: Entry, now: Time, id: EntryId)
    requires
        held.items.dom().finite(),
        held.items.contains_key(id),
        last.id != id,
        !takes_out(last, id, held.items[id].clock),
    ensures
        held.add(last, now).0.items.contains_key(id),
        held.add(last, now).0.items[id] == held.items[id],
        held.add(last, now).0.items.dom().finite(),
        held.log.entries.contains_key(id) ==> held.add(last, now).0.log.entries.contains_key(id),
{
    if laws::said(last) == Some(EventView::Purge) {
        let p = |item: ItemView| item.clock.rank() <= last.clock.rank();
        let stale = model::named_in_order(held.items, p);
        let set = held.items.dom().filter(|id: EntryId| p(held.items[id]));
        ordmap::lemma_in_order_holds(set);
        assert(set.contains(id) == p(held.items[id]));
        lemma_later(held.items[id].clock, last.clock);
        let purged = ClipState {
            purged_through: held.purged_through.later(last.clock),
            ..held
        };
        lemma_leaving_out(purged, stale);
        laws::lemma_without_all(purged, stale);
        let after = purged.without_all(stale);
        assert(held.add(last, now).0 == after);
        assert(after.items.contains_key(id));
        assert(after.items[id] == purged.items[id]);
    }
}

/// What arrives is in the history, as what it is, unless it was forgotten or
/// purged, by then or by what arrives with it, or does not come in on its own
/// account: in whatever order entries arrive, and whatever else does.
pub proof fn what_arrives_is_in_the_history(
    state: ClipState,
    entries: Seq<Entry>,
    now: Time,
    n: int,
    copy: CopyView,
)
    requires
        state.valid(),
        0 <= n < entries.len(),
        laws::said(entries[n]) == Some(EventView::Copy(copy)),
        copy.reps.len() > 0,
        comes_in(state, entries[n], copy, now),
        forall|i: int|
            0 <= i < entries.len() && i != n ==> (#[trigger] entries[i]).id != entries[n].id
                && !takes_out(entries[i], entries[n].id, entries[n].clock),
    ensures
        ({
            let after = state.fold(laws::arrivals(entries), now).0;
            after.items.contains_key(entries[n].id) && shows(
                after.items[entries[n].id],
                entries[n],
                copy,
                now,
            )
        }),
    decreases entries.len(),
{
    let id = entries[n].id;
    let rest = entries.drop_last();
    let last = entries.last();
    assert(laws::arrivals(entries).drop_last() =~= laws::arrivals(rest));
    assert(entries[entries.len() - 1] == last);
    let held = state.fold(laws::arrivals(rest), now).0;
    lemma_fold_finite(state, rest, now);
    if n == entries.len() - 1 {
        assert forall|i: int| 0 <= i < rest.len() implies !takes_out(
            #[trigger] rest[i],
            id,
            last.clock,
        ) by {
            assert(rest[i] == entries[i]);
        }
        lemma_still_comes_in(state, rest, now, last, copy);
        a_copy_comes_into_the_history(held, last, copy, now);
    } else {
        assert forall|i: int| 0 <= i < rest.len() && i != n implies (#[trigger] rest[i]).id
            != rest[n].id && !takes_out(rest[i], rest[n].id, rest[n].clock) by {
            assert(rest[i] == entries[i]);
        }
        what_arrives_is_in_the_history(state, rest, now, n, copy);
        lemma_one_more(held, last, now, id);
    }
}

proof fn lemma_fold_finite(state: ClipState, entries: Seq<Entry>, now: Time)
    requires
        state.items.dom().finite(),
    ensures
        state.fold(laws::arrivals(entries), now).0.items.dom().finite(),
    decreases entries.len(),
{
    if entries.len() > 0 {
        let rest = entries.drop_last();
        assert(laws::arrivals(entries).drop_last() =~= laws::arrivals(rest));
        lemma_fold_finite(state, rest, now);
        let held = state.fold(laws::arrivals(rest), now).0;
        let last = entries.last();
        if laws::said(last) == Some(EventView::Purge) {
            let p = |item: ItemView| item.clock.rank() <= last.clock.rank();
            laws::lemma_without_all(
                ClipState { purged_through: held.purged_through.later(last.clock), ..held },
                model::named_in_order(held.items, p),
            );
        }
    }
}

proof fn lemma_still_comes_in(
    state: ClipState,
    entries: Seq<Entry>,
    now: Time,
    entry: Entry,
    copy: CopyView,
)
    requires
        comes_in(state, entry, copy, now),
        forall|i: int|
            0 <= i < entries.len() ==> !takes_out(#[trigger] entries[i], entry.id, entry.clock),
    ensures
        comes_in(state.fold(laws::arrivals(entries), now).0, entry, copy, now),
    decreases entries.len(),
{
    if entries.len() > 0 {
        let rest = entries.drop_last();
        assert(laws::arrivals(entries).drop_last() =~= laws::arrivals(rest));
        assert forall|i: int| 0 <= i < rest.len() implies !takes_out(
            #[trigger] rest[i],
            entry.id,
            entry.clock,
        ) by {
            assert(rest[i] == entries[i]);
        }
        lemma_still_comes_in(state, rest, now, entry, copy);
        let held = state.fold(laws::arrivals(rest), now).0;
        let last = entries.last();
        assert(entries[entries.len() - 1] == last);
        if laws::said(last) == Some(EventView::Purge) {
            let p = |item: ItemView| item.clock.rank() <= last.clock.rank();
            laws::lemma_without_all(
                ClipState { purged_through: held.purged_through.later(last.clock), ..held },
                model::named_in_order(held.items, p),
            );
            lemma_later(held.purged_through, last.clock);
        }
    }
}


/// The entries of a batch, as this machine takes them: what is not a secret may
/// be kept on the disk, and so may a clear, a forget and a purge.
pub open spec fn as_taken(wires: Seq<WireEntry>) -> Seq<Entry> {
    wires.map_values(
        |wire: WireEntry|
            Entry {
                id: wire.id,
                clock: wire.clock,
                payload: log::payload_of(wire.payload@),
                durable: match codec::decoding(wire.payload@) {
                    Some(EventView::Copy(copy)) => !copy.secret,
                    Some(_) => true,
                    None => false,
                },
            },
    )
}

/// How many bytes the entries of a batch have together.
pub open spec fn batch_bytes(wires: Seq<WireEntry>) -> nat
    decreases wires.len(),
{
    if wires.len() == 0 {
        0
    } else {
        batch_bytes(wires.drop_last()) + wires.last().payload@.len()
    }
}

/// Whether a batch is of other machines, in the order of names, and new to a
/// log.
pub open spec fn is_new(wires: Seq<WireEntry>, log: LogState) -> bool {
    &&& forall|i: int|
        0 <= i < wires.len() ==> (#[trigger] wires[i]).id.origin != log.origin
    &&& forall|i: int|
        0 <= i < wires.len() ==> (#[trigger] wires[i]).id.seq > log::mark_at(
            log.have,
            wires[i].id.origin,
        )
    &&& forall|i: int, j: int|
        0 <= i < j < wires.len() && (#[trigger] wires[i]).id.origin == (
        #[trigger] wires[j]).id.origin ==> wires[i].id.seq < wires[j].id.seq
}

proof fn lemma_new_batch(log: LogState, wires: Seq<WireEntry>, wall: u64)
    requires
        log.valid(),
        is_new(wires, log),
        log::all_intact(wires),
        log.entries.dom().len() + wires.len() <= log.limits.entries,
        store::weight(log.entries) + batch_bytes(wires) <= log.limits.bytes,
    ensures
        ({
            let (after, changes) = model::accept_all(log, wires, wall);
            &&& after.limits == log.limits
            &&& after.origin == log.origin
            &&& after.next_seq == log.next_seq
            &&& after.entries.dom().finite()
            &&& after.entries.dom().len() <= log.entries.dom().len() + wires.len()
            &&& store::weight(after.entries) == store::weight(log.entries) + batch_bytes(wires)
            &&& after.valid()
            &&& changes == laws::arrivals(as_taken(wires))
            &&& forall|origin: log::EndpointId| #[trigger]
                log::mark_at(after.have, origin) == log::mark_at(log.have, origin) || exists|
                    i: int,
                |
                    0 <= i < wires.len() && (#[trigger] wires[i]).id.origin == origin
                        && wires[i].id.seq == log::mark_at(after.have, origin)
            &&& forall|i: int|
                0 <= i < wires.len() ==> after.entries.contains_key((#[trigger] wires[i]).id)
                    && after.entries[wires[i].id] == as_taken(wires)[i]
            &&& forall|id: EntryId| #[trigger]
                log.entries.contains_key(id) ==> after.entries.contains_key(id)
                    && after.entries[id] == log.entries[id]
            &&& forall|id: EntryId| #[trigger]
                after.entries.contains_key(id) ==> log.entries.contains_key(id) || exists|i: int|
                    0 <= i < wires.len() && (#[trigger] wires[i]).id == id
        }),
    decreases wires.len(),
{
    let all = as_taken(wires);
    if wires.len() == 0 {
        assert(laws::arrivals(all) =~= Seq::<Change>::empty());
    } else {
        let rest = wires.drop_last();
        let wire = wires.last();
        assert(wires[wires.len() - 1] == wire);
        assert forall|i: int| 0 <= i < rest.len() implies (#[trigger] rest[i]).id.seq
            > log::mark_at(log.have, rest[i].id.origin) by {
            assert(rest[i] == wires[i]);
        }
        assert forall|i: int| 0 <= i < rest.len() implies (#[trigger] rest[i]).id.origin
            != log.origin by {
            assert(rest[i] == wires[i]);
        }
        assert forall|i: int, j: int|
            0 <= i < j < rest.len() && (#[trigger] rest[i]).id.origin == (
            #[trigger] rest[j]).id.origin implies rest[i].id.seq < rest[j].id.seq by {
            assert(rest[i] == wires[i] && rest[j] == wires[j]);
        }
        assert(log::all_intact(rest)) by {
            assert forall|i: int| 0 <= i < rest.len() implies log::intact(
                (#[trigger] rest[i]).payload@,
            ) by {
                assert(rest[i] == wires[i]);
            }
        }
        lemma_new_batch(log, rest, wall);
        let (before, had) = model::accept_all(log, rest, wall);
        let entry = all.last();
        assert(log::intact(wire.payload@));
        assert(entry == store::taken(wire, model::is_durable(wire.payload@)));
        let origin = wire.id.origin;
        if log::mark_at(before.have, origin) != log::mark_at(log.have, origin) {
            let i = choose|i: int|
                0 <= i < rest.len() && (#[trigger] rest[i]).id.origin == origin && rest[i].id.seq
                    == log::mark_at(before.have, origin);
            assert(rest[i] == wires[i]);
        }
        assert(!before.entries.contains_key(entry.id));
        store::what_a_peer_sends_is_kept(before, entry, wall);
        store::weights_add_up(before.entries, entry);
        let after = model::accept_all(log, wires, wall).0;
        assert(after.entries.dom() =~= before.entries.dom().insert(entry.id));
        assert(as_taken(rest) =~= all.drop_last());
        assert(laws::arrivals(all) =~= had + seq![Change::Added(entry)]);
        assert forall|o: log::EndpointId| #[trigger]
            log::mark_at(after.have, o) == log::mark_at(log.have, o) || exists|i: int|
                0 <= i < wires.len() && (#[trigger] wires[i]).id.origin == o && wires[i].id.seq
                    == log::mark_at(after.have, o) by {
            if o != origin {
                assert(log::mark_at(after.have, o) == log::mark_at(before.have, o));
                if log::mark_at(before.have, o) != log::mark_at(log.have, o) {
                    let i = choose|i: int|
                        0 <= i < rest.len() && (#[trigger] rest[i]).id.origin == o
                            && rest[i].id.seq == log::mark_at(before.have, o);
                    assert(rest[i] == wires[i]);
                }
            }
        }
        assert forall|i: int| 0 <= i < wires.len() implies after.entries.contains_key(
            (#[trigger] wires[i]).id,
        ) && after.entries[wires[i].id] == all[i] by {
            if i < rest.len() {
                assert(rest[i] == wires[i]);
                assert(before.entries.contains_key(rest[i].id));
                assert(as_taken(rest)[i] == all[i]);
            }
        }
        assert forall|id: EntryId| #[trigger] after.entries.contains_key(
            id,
        ) implies log.entries.contains_key(id) || exists|i: int|
            0 <= i < wires.len() && (#[trigger] wires[i]).id == id by {
            if id != entry.id && !log.entries.contains_key(id) {
                assert(before.entries.contains_key(id));
                let i = choose|i: int| 0 <= i < rest.len() && (#[trigger] rest[i]).id == id;
                assert(rest[i] == wires[i]);
            }
        }
        assert forall|id: EntryId| #[trigger] log.entries.contains_key(
            id,
        ) implies after.entries.contains_key(id) && after.entries[id] == log.entries[id] by {
            assert(before.entries.contains_key(id));
        }
        assert(after.valid());
    }
}

/// Catching up with a peer brings everything: with what it sends taken, this
/// machine's log holds every entry of the peer's that it had not seen, written
/// when and what it was there, and every entry it held before; as long as there
/// is room.
pub proof fn catching_up_brings_everything(
    theirs: LogState,
    ours: LogState,
    wires: Seq<WireEntry>,
    wall: u64,
    id: EntryId,
)
    requires
        theirs.valid(),
        ours.valid(),
        state::sent(wires, theirs, ours.have),
        log::all_intact(wires),
        forall|id: EntryId| #[trigger]
            theirs.entries.contains_key(id) && id.origin == ours.origin ==> id.seq <= log::mark_at(
                ours.have,
                id.origin,
            ),
        ours.entries.dom().len() + wires.len() <= ours.limits.entries,
        store::weight(ours.entries) + batch_bytes(wires) <= ours.limits.bytes,
    ensures
        ({
            let after = model::accept_all(ours, wires, wall).0;
            &&& theirs.entries.contains_key(id) && id.seq > log::mark_at(ours.have, id.origin)
                ==> after.entries.contains_key(id) && after.entries[id].id == id
                && after.entries[id].clock == theirs.entries[id].clock
                && after.entries[id].bytes() == theirs.entries[id].bytes()
            &&& ours.entries.contains_key(id) ==> after.entries.contains_key(id)
                && after.entries[id] == ours.entries[id]
            &&& after.entries.contains_key(id) ==> ours.entries.contains_key(id)
                || theirs.entries.contains_key(id)
        }),
{
    assert(is_new(wires, ours)) by {
        assert forall|i: int| 0 <= i < wires.len() implies (#[trigger] wires[i]).id.seq
            > log::mark_at(ours.have, wires[i].id.origin) by {}
        assert forall|i: int, j: int|
            0 <= i < j < wires.len() && (#[trigger] wires[i]).id.origin == (
            #[trigger] wires[j]).id.origin implies wires[i].id.seq < wires[j].id.seq by {
            assert(wires[i].id.rank() < wires[j].id.rank());
        }
    }
    lemma_new_batch(ours, wires, wall);
    let after = model::accept_all(ours, wires, wall).0;
    if theirs.entries.contains_key(id) && id.seq > log::mark_at(ours.have, id.origin) {
        let j = choose|j: int|
            0 <= j < wires.len() && (#[trigger] wires[j]).carries(theirs.entries[id]);
        assert(after.entries[wires[j].id] == as_taken(wires)[j]);
        assert(log::intact(wires[j].payload@));
    }
    if after.entries.contains_key(id) && !ours.entries.contains_key(id) {
        let i = choose|i: int| 0 <= i < wires.len() && (#[trigger] wires[i]).id == id;
        assert(theirs.entries.contains_key(wires[i].id));
    }
}

/// A copy made on another machine is in the history here once its batch is
/// taken, as what it is, unless it was forgotten or purged, before or by the
/// same batch, or does not come in on its own account.
pub proof fn a_copy_made_elsewhere_is_in_the_history(
    before: ClipState,
    wires: Seq<WireEntry>,
    now: Time,
    after: ClipState,
    effects: Vec<Effect>,
    n: int,
    copy: CopyView,
)
    requires
        before.valid(),
        state::accepting(before, wires, now, after, Ok(effects)),
        is_new(wires, before.log),
        before.log.entries.dom().len() + wires.len() <= before.log.limits.entries,
        store::weight(before.log.entries) + batch_bytes(wires) <= before.log.limits.bytes,
        0 <= n < wires.len(),
        codec::decoding(wires[n].payload@) == Some(EventView::Copy(copy)),
        copy.reps.len() > 0,
        comes_in(before, as_taken(wires)[n], copy, now),
        forall|i: int|
            0 <= i < wires.len() && i != n ==> (#[trigger] wires[i]).id != wires[n].id
                && !takes_out(as_taken(wires)[i], wires[n].id, wires[n].clock),
    ensures
        after.items.contains_key(wires[n].id),
        shows(after.items[wires[n].id], as_taken(wires)[n], copy, now),
{
    let entries = as_taken(wires);
    let (taken, changes) = model::accept_all(before.log, wires, now.whole_millis());
    lemma_new_batch(before.log, wires, now.whole_millis());
    assert(log::intact(wires[n].payload@));
    let held = ClipState { log: taken, ..before };
    assert(held.valid());
    assert forall|i: int| 0 <= i < entries.len() && i != n implies (#[trigger] entries[i]).id
        != entries[n].id && !takes_out(entries[i], entries[n].id, entries[n].clock) by {
        assert(wires[i].id != wires[n].id);
    }
    what_arrives_is_in_the_history(held, entries, now, n, copy);
}

/// What a peer copied is kept on this machine's disk unless it is a secret, and
/// so is what it cleared, forgot and purged.
pub proof fn what_a_peer_said_may_be_kept(payload: Seq<u8>)
    ensures
        model::is_durable(payload) == (match codec::decoding(payload) {
            Some(EventView::Copy(copy)) => !copy.secret,
            Some(EventView::Clear) => true,
            Some(EventView::Forget(_)) => true,
            Some(EventView::Purge) => true,
            None => false,
        }),
{
}


/// What is picked is the selection from then on, and in the log for others to
/// fetch.
pub proof fn what_is_picked_is_the_selection(
    before: ClipState,
    settings: Settings,
    id: EntryId,
    copy: CopyView,
    now: Time,
    after: ClipState,
    picked: EntryId,
    effects: Vec<Effect>,
)
    requires
        before.copied(id) == Some(copy),
        copy.reps.len() > 0,
        state::picking(before, settings, id, now, after, Ok((picked, effects))),
        can_write(before, before.pick_event(copy, id, settings.secret_ttl)),
        copy.ttl != Some(0u32),
        copy.secret && copy.ttl is None ==> settings.secret_ttl.nanos >= 1_000_000_000,
        nothing_is_ahead(before),
        now.nanos / 1_000_000 <= u64::MAX,
        !before.forgotten.contains(before.log.next_id()),
    ensures
        picked == before.log.next_id(),
        after.selected() == Some(picked),
        after.items.contains_key(picked),
        after.items[picked].secret == copy.secret,
        after.items.remove(picked) == before.items.remove(picked),
        after.log.entries.contains_key(picked),
        after.log.entries[picked].durable == !copy.secret,
{
    let event = before.pick_event(copy, id, settings.secret_ttl);
    sharing::only_file_references_are_taken_out(copy.reps);
    if let EventView::Copy(anew) = event {
        sharing::lemma_total(anew.reps);
        lemma_copy_folded(before, anew, !copy.secret, now);
        let (kept, changes) = before.write(event, !copy.secret, now);
        let folded = kept.fold(changes, now).0;
        laws::lemma_same_selection(folded, folded.reconcile(now).0);
    }
}

/// Picking an entry that is no copy, cannot be read or is gone changes nothing,
/// and it is told which.
pub proof fn only_a_copy_is_picked(
    before: ClipState,
    settings: Settings,
    id: EntryId,
    now: Time,
    after: ClipState,
    result: Result<(EntryId, Vec<Effect>), ClipError>,
)
    requires
        state::picking(before, settings, id, now, after, result),
        before.copied(id) is None,
    ensures
        after == before,
        !before.log.entries.contains_key(id) ==> result == Err::<
            (EntryId, Vec<Effect>),
            ClipError,
        >(ClipError::Gone(id)),
        before.log.entries.contains_key(id) && laws::said(before.log.entries[id]) is Some
            ==> result == Err::<(EntryId, Vec<Effect>), ClipError>(ClipError::NotACopy(id)),
        before.log.entries.contains_key(id) && laws::said(before.log.entries[id]) is None
            ==> result == Err::<(EntryId, Vec<Effect>), ClipError>(ClipError::Undecodable(id)),
{
}

/// What was typed matches the entries of the history whose labels begin with
/// it, and no others, each once: with nothing typed all of them, and with more
/// typed no more of them.
pub proof fn what_was_typed_matches(
    state: ClipState,
    needle: Seq<char>,
    more: Seq<char>,
    id: EntryId,
)
    requires
        state.valid(),
    ensures
        state::matches(state, needle).contains(id) <==> state.items.contains_key(id)
            && needle.is_prefix_of(id.label_text()),
        state.items.contains_key(id) ==> state::matches(state, id.label_text()).contains(id),
        state.items.contains_key(id) ==> state::matches(state, Seq::empty()).contains(id),
        state::matches(state, needle + more).contains(id) ==> state::matches(
            state,
            needle,
        ).contains(id),
        state::matches(state, needle).no_duplicates(),
{
    lemma_matches(state, needle, id);
    lemma_matches(state, id.label_text(), id);
    lemma_matches(state, Seq::empty(), id);
    lemma_matches(state, needle + more, id);
    let label = id.label_text();
    assert(label.is_prefix_of(label)) by {
        assert(label =~= label.subrange(0, label.len() as int));
    }
    assert(Seq::<char>::empty().is_prefix_of(label)) by {
        assert(Seq::<char>::empty() =~= label.subrange(0, 0));
    }
    if (needle + more).is_prefix_of(label) {
        let whole = needle + more;
        assert(needle =~= label.subrange(0, needle.len() as int)) by {
            assert forall|i: int| 0 <= i < needle.len() implies needle[i] == label[i] by {
                assert(whole[i] == label.subrange(0, whole.len() as int)[i]);
            }
        }
    }
    let list = state::matches(state, needle);
    assert forall|i: int, j: int| 0 <= i < list.len() && 0 <= j < list.len() && i != j implies list[i]
        != list[j] by {
        if i < j {
            assert(list[i].rank() < list[j].rank());
        } else {
            assert(list[j].rank() < list[i].rank());
        }
    }
}

proof fn lemma_matches(state: ClipState, needle: Seq<char>, id: EntryId)
    requires
        state.valid(),
    ensures
        state::matches(state, needle).contains(id) <==> state.items.contains_key(id)
            && needle.is_prefix_of(id.label_text()),
        ordmap::keys_ascending(state::matches(state, needle)),
{
    let p = |item: ItemView| needle.is_prefix_of(item.id.label_text());
    let set = state.items.dom().filter(|id: EntryId| p(state.items[id]));
    ordmap::lemma_in_order_holds(set);
    assert(set.contains(id) == (state.items.contains_key(id) && p(state.items[id])));
}

/// The history goes from the newest to the oldest: an entry that comes before
/// another in it was not written earlier, and of two written at once the one
/// whose name comes last is first.
pub proof fn the_history_is_newest_first(first: ItemView, second: ItemView)
    requires
        model::item_order(first) > model::item_order(second),
    ensures
        !is_later(second.clock, first.clock),
        first.clock == second.clock ==> first.id.rank() > second.id.rank(),
        first.id.origin == second.id.origin && first.clock == second.clock ==> first.id.seq
            > second.id.seq,
{
    lemma_order(second, first);
}

/// What the spool may keep is what some entry of the history names: the content
/// of every file of it, and no other.
pub proof fn what_the_history_names_is_referenced(
    items: Map<EntryId, ItemView>,
    id: EntryId,
    n: int,
    hash: files::Hash,
)
    ensures
        items.contains_key(id) && 0 <= n < items[id].files.len() ==> state::content_named(
            items,
            items[id].files[n].hash,
        ),
        state::content_named(items, hash) ==> exists|other: EntryId, k: int|
            #![trigger items[other].files[k]]
            items.contains_key(other) && 0 <= k < items[other].files.len()
                && items[other].files[k].hash == hash,
{
    if items.contains_key(id) && 0 <= n < items[id].files.len() {
        assert(state::hash_named(items[id].files, items[id].files[n].hash)) by {
            assert(items[id].files[n].hash == items[id].files[n].hash);
        }
    }
    if state::content_named(items, hash) {
        let other = choose|other: EntryId| #[trigger]
            items.contains_key(other) && state::hash_named(items[other].files, hash);
        let list = items[other].files;
        let k = choose|k: int| 0 <= k < list.len() && (#[trigger] list[k]).hash == hash;
        assert(items[other].files[k].hash == hash);
    }
}


/// The file of every entry that is read back from disk but does not stay is
/// discarded, and no other.
pub proof fn what_does_not_stay_is_discarded(
    before: ClipState,
    wires: Seq<WireEntry>,
    now: Time,
    id: EntryId,
)
    ensures
        ({
            let after = before.restore(wires, now);
            let effects = model::forgets(model::lost(after.log, wires));
            &&& effects.contains(EffectView::Forget(id)) <==> (!after.log.entries.contains_key(id)
                && exists|i: int| 0 <= i < wires.len() && (#[trigger] wires[i]).id == id)
            &&& forall|i: int| 0 <= i < effects.len() ==> (#[trigger] effects[i]) is Forget
        }),
{
    let after = before.restore(wires, now);
    lemma_lost(after.log, wires, id);
    let ids = model::lost(after.log, wires);
    let effects = model::forgets(ids);
    if ids.contains(id) {
        let i = choose|i: int| 0 <= i < ids.len() && ids[i] == id;
        assert(effects[i] == EffectView::Forget(id));
    }
    if effects.contains(EffectView::Forget(id)) {
        let i = choose|i: int| 0 <= i < effects.len() && effects[i] == EffectView::Forget(id);
        assert(ids[i] == id);
    }
}

/// What a log has lost of some entries is what it does not hold of them.
proof fn lemma_lost(log: LogState, wires: Seq<WireEntry>, id: EntryId)
    ensures
        model::lost(log, wires).contains(id) <==> (!log.entries.contains_key(id) && exists|i: int|
            0 <= i < wires.len() && (#[trigger] wires[i]).id == id),
    decreases wires.len(),
{
    if wires.len() > 0 {
        let rest = wires.drop_last();
        let before = model::lost(log, rest);
        let all = model::lost(log, wires);
        lemma_lost(log, rest, id);
        assert(wires[wires.len() - 1] == wires.last());
        if exists|i: int| 0 <= i < rest.len() && (#[trigger] rest[i]).id == id {
            let i = choose|i: int| 0 <= i < rest.len() && (#[trigger] rest[i]).id == id;
            assert(wires[i].id == id);
        }
        if exists|i: int| 0 <= i < wires.len() && (#[trigger] wires[i]).id == id {
            let i = choose|i: int| 0 <= i < wires.len() && (#[trigger] wires[i]).id == id;
            if i < rest.len() {
                assert(rest[i].id == id);
            }
        }
        if before.contains(id) {
            let i = choose|i: int| 0 <= i < before.len() && before[i] == id;
            assert(all[i] == id);
        }
        if !log.entries.contains_key(wires.last().id) {
            assert(all[before.len() as int] == wires.last().id);
            if all.contains(id) && id != wires.last().id {
                let i = choose|i: int| 0 <= i < all.len() && all[i] == id;
                assert(before[i] == id);
            }
        }
    }
}

} // verus!
