//! What holds of the clipboard as a whole.

use crate::clip::codec;
use crate::clip::event::{CopyView, EventView, RepView};
use crate::clip::mime;
use crate::clip::model;
use crate::clip::model::{ClipState, EffectView, ItemView, Switch};
use crate::clip::offer;
use crate::clip::offer::ServeView;
use crate::clip::preview;
use crate::config::name;
use crate::clip::state;
use crate::log;
use crate::log::store;
use crate::log::{Change, EndpointId, Entry, EntryId, Hlc, LogState, OrderKey, WireEntry};
use crate::ordmap;
use crate::ordmap::Ranked;
use crate::text;
use crate::time::{Span, Time, NANOS_PER_MILLI, NANOS_PER_SEC};
use vstd::prelude::*;

verus! {

/// What an entry says.
pub open spec fn said(entry: Entry) -> Option<EventView> {
    codec::decoding(entry.bytes())
}

/// Some entries, as changes that add them.
pub open spec fn arrivals(entries: Seq<Entry>) -> Seq<Change> {
    entries.map_values(|entry: Entry| Change::Added(entry))
}

/// Whether some entry forgets another.
pub open spec fn forgets(entries: Seq<Entry>, id: EntryId) -> bool {
    exists|i: int| 0 <= i < entries.len() && said(#[trigger] entries[i]) == Some(EventView::Forget(id))
}

/// Whether a point is the latest at which some entries say something, or the
/// beginning of time when none does.
pub open spec fn latest(entries: Seq<Entry>, event: EventView, point: Hlc) -> bool {
    &&& forall|i: int|
        0 <= i < entries.len() && said(#[trigger] entries[i]) == Some(event)
            ==> entries[i].clock.rank() <= point.rank()
    &&& point.rank() == 0 || exists|i: int|
        0 <= i < entries.len() && said(#[trigger] entries[i]) == Some(event) && entries[i].clock
            == point
}

/// Whether an entry is in the history that some entries make up: it is a copy,
/// it is neither forgotten nor purged, and it has not expired.
pub open spec fn lives(
    entry: Entry,
    forgotten: Set<EntryId>,
    purged_through: Hlc,
    now: Time,
) -> bool {
    match said(entry) {
        Some(EventView::Copy(copy)) => {
            &&& !forgotten.contains(entry.id)
            &&& entry.clock.rank() > purged_through.rank()
            &&& model::item_of(entry, copy, now) is Some
        },
        _ => false,
    }
}

/// The history entry of a copy that lives.
pub open spec fn item_for(entry: Entry, now: Time) -> ItemView {
    model::item_of(entry, said(entry)->0->Copy_0, now)->0
}

/// Whether a clipboard is the one some entries make up.
pub open spec fn derived(state: ClipState, entries: Seq<Entry>, now: Time) -> bool {
    &&& state.items.dom().finite()
    &&& forall|id: EntryId| #[trigger] state.forgotten.contains(id) == forgets(entries, id)
    &&& latest(entries, EventView::Purge, state.purged_through)
    &&& latest(entries, EventView::Clear, state.cleared_through)
    &&& forall|id: EntryId| #[trigger]
        state.items.contains_key(id) ==> exists|i: int|
            0 <= i < entries.len() && (#[trigger] entries[i]).id == id && lives(
                entries[i],
                state.forgotten,
                state.purged_through,
                now,
            ) && state.items[id] == item_for(entries[i], now)
    &&& forall|i: int|
        0 <= i < entries.len() && lives(
            #[trigger] entries[i],
            state.forgotten,
            state.purged_through,
            now,
        ) ==> state.items.contains_key(entries[i].id)
}

/// Whether names are used once among some entries: entries of one name are one
/// entry.
pub open spec fn names_are_unique(entries: Seq<Entry>) -> bool {
    forall|i: int, j: int|
        0 <= i < entries.len() && 0 <= j < entries.len() && (#[trigger] entries[i]).id == (
        #[trigger] entries[j]).id ==> entries[i] == entries[j]
}

/// Whether a clipboard holds nothing yet.
pub open spec fn fresh(state: ClipState) -> bool {
    &&& state.items == Map::<EntryId, ItemView>::empty()
    &&& state.forgotten == Set::<EntryId>::empty()
    &&& state.purged_through == (Hlc { millis: 0, counter: 0 })
    &&& state.cleared_through == (Hlc { millis: 0, counter: 0 })
}

pub proof fn lemma_without_all(state: ClipState, ids: Seq<EntryId>)
    ensures
        state.without_all(ids).forgotten == state.forgotten,
        state.without_all(ids).purged_through == state.purged_through,
        state.without_all(ids).cleared_through == state.cleared_through,
        forall|id: EntryId| #[trigger]
            state.without_all(ids).items.contains_key(id) == (state.items.contains_key(id)
                && !ids.contains(id)),
        forall|id: EntryId| #[trigger]
            state.without_all(ids).items.contains_key(id) ==> state.without_all(ids).items[id]
                == state.items[id],
        state.items.dom().finite() ==> state.without_all(ids).items.dom().finite(),
    decreases ids.len(),
{
    if ids.len() > 0 {
        let rest = ids.drop_last();
        lemma_without_all(state, rest);
        assert forall|id: EntryId| ids.contains(id) == (rest.contains(id) || id == ids.last()) by {
            if ids.contains(id) {
                let i = choose|i: int| 0 <= i < ids.len() && ids[i] == id;
                if i < rest.len() {
                    assert(rest[i] == id);
                }
            }
            if rest.contains(id) {
                let i = choose|i: int| 0 <= i < rest.len() && rest[i] == id;
                assert(ids[i] == id);
            }
            assert(ids[ids.len() - 1] == ids.last());
        }
    }
}

proof fn lemma_latest_more(entries: Seq<Entry>, entry: Entry, event: EventView, point: Hlc)
    requires
        latest(entries, event, point),
    ensures
        said(entry) == Some(event) ==> latest(
            entries.push(entry),
            event,
            point.later(entry.clock),
        ),
        said(entry) != Some(event) ==> latest(entries.push(entry), event, point),
{
    let more = entries.push(entry);
    let after = if said(entry) == Some(event) {
        point.later(entry.clock)
    } else {
        point
    };
    assert(more[entries.len() as int] == entry);
    assert forall|i: int|
        0 <= i < more.len() && said(#[trigger] more[i]) == Some(
            event,
        ) implies more[i].clock.rank() <= after.rank() by {
        if i < entries.len() {
            assert(more[i] == entries[i]);
        }
    }
    if after.rank() != 0 {
        if after == point {
            let i = choose|i: int|
                0 <= i < entries.len() && said(#[trigger] entries[i]) == Some(event)
                    && entries[i].clock == point;
            assert(more[i] == entries[i]);
        }
    }
}

proof fn lemma_forgets_more(entries: Seq<Entry>, entry: Entry, id: EntryId)
    ensures
        forgets(entries.push(entry), id) == (forgets(entries, id) || said(entry) == Some(
            EventView::Forget(id),
        )),
{
    let more = entries.push(entry);
    if forgets(entries, id) {
        let i = choose|i: int|
            0 <= i < entries.len() && said(#[trigger] entries[i]) == Some(EventView::Forget(id));
        assert(more[i] == entries[i]);
    }
    if forgets(more, id) {
        let i = choose|i: int|
            0 <= i < more.len() && said(#[trigger] more[i]) == Some(EventView::Forget(id));
        if i < entries.len() {
            assert(more[i] == entries[i]);
        }
    }
    assert(more[entries.len() as int] == entry);
}

/// One more entry keeps the clipboard the one its entries make up.
proof fn lemma_derived_more(state: ClipState, entries: Seq<Entry>, entry: Entry, now: Time)
    requires
        derived(state, entries, now),
        names_are_unique(entries.push(entry)),
    ensures
        derived(state.add(entry, now).0, entries.push(entry), now),
{
    let more = entries.push(entry);
    let after = state.add(entry, now).0;
    assert(more[entries.len() as int] == entry);
    assert forall|id: EntryId| #[trigger] after.forgotten.contains(id) == forgets(more, id) by {
        lemma_forgets_more(entries, entry, id);
        if said(entry) == Some(EventView::Purge) {
            let stale = model::named_in_order(
                state.items,
                |item: ItemView| item.clock.rank() <= entry.clock.rank(),
            );
            lemma_without_all(
                ClipState { purged_through: state.purged_through.later(entry.clock), ..state },
                stale,
            );
        }
    }
    lemma_latest_more(entries, entry, EventView::Purge, state.purged_through);
    lemma_latest_more(entries, entry, EventView::Clear, state.cleared_through);
    let stale = model::named_in_order(
        state.items,
        |item: ItemView| item.clock.rank() <= entry.clock.rank(),
    );
    let purged = ClipState { purged_through: state.purged_through.later(entry.clock), ..state };
    lemma_without_all(purged, stale);
    let set = state.items.dom().filter(
        |id: EntryId| state.items[id].clock.rank() <= entry.clock.rank(),
    );
    let old_set = state.items.dom().filter(
        |id: EntryId|
            (|item: ItemView| item.clock.rank() <= entry.clock.rank())(state.items[id]),
    );
    assert(set =~= old_set);
    ordmap::lemma_in_order_holds(old_set);
    assert forall|id: EntryId| #[trigger] after.items.contains_key(id) implies exists|i: int|
        0 <= i < more.len() && (#[trigger] more[i]).id == id && lives(
            more[i],
            after.forgotten,
            after.purged_through,
            now,
        ) && after.items[id] == item_for(more[i], now) by {
        if state.items.contains_key(id) && after.items[id] == state.items[id] {
            let i = choose|i: int|
                0 <= i < entries.len() && (#[trigger] entries[i]).id == id && lives(
                    entries[i],
                    state.forgotten,
                    state.purged_through,
                    now,
                ) && state.items[id] == item_for(entries[i], now);
            assert(more[i] == entries[i]);
            assert(old_set.contains(id) == (state.items[id].clock.rank() <= entry.clock.rank()));
        } else {
            assert(more[entries.len() as int].id == id);
        }
    }
    assert forall|i: int|
        0 <= i < more.len() && lives(
            #[trigger] more[i],
            after.forgotten,
            after.purged_through,
            now,
        ) implies after.items.contains_key(more[i].id) by {
        let id = more[i].id;
        if i < entries.len() {
            assert(more[i] == entries[i]);
            assert(lives(entries[i], state.forgotten, state.purged_through, now));
            assert(state.items.contains_key(id));
            if said(entry) == Some(EventView::Purge) {
                assert(state.items[id].clock == more[i].clock) by {
                    let j = choose|j: int|
                        0 <= j < entries.len() && (#[trigger] entries[j]).id == id && lives(
                            entries[j],
                            state.forgotten,
                            state.purged_through,
                            now,
                        ) && state.items[id] == item_for(entries[j], now);
                    assert(more[j] == entries[j]);
                    assert(more[j].id == more[i].id);
                }
                assert(old_set.contains(id) == (state.items[id].clock.rank()
                    <= entry.clock.rank()));
            }
        }
    }
}

proof fn lemma_fold_derives(state: ClipState, entries: Seq<Entry>, now: Time)
    requires
        fresh(state),
        names_are_unique(entries),
    ensures
        derived(state.fold(arrivals(entries), now).0, entries, now),
    decreases entries.len(),
{
    if entries.len() == 0 {
    } else {
        let rest = entries.drop_last();
        assert(arrivals(entries).drop_last() =~= arrivals(rest));
        assert forall|i: int, j: int|
            0 <= i < rest.len() && 0 <= j < rest.len() && (#[trigger] rest[i]).id == (
            #[trigger] rest[j]).id implies rest[i] == rest[j] by {
            assert(entries[i] == rest[i] && entries[j] == rest[j]);
        }
        lemma_fold_derives(state, rest, now);
        assert(rest.push(entries.last()) =~= entries);
        lemma_derived_more(state.fold(arrivals(rest), now).0, rest, entries.last(), now);
    }
}

/// Whether two lists hold the same entries.
pub open spec fn same_entries(a: Seq<Entry>, b: Seq<Entry>) -> bool {
    forall|entry: Entry| #[trigger] a.contains(entry) == b.contains(entry)
}

proof fn lemma_latest_agrees(a: Seq<Entry>, b: Seq<Entry>, event: EventView, x: Hlc, y: Hlc)
    requires
        same_entries(a, b),
        latest(a, event, x),
        latest(b, event, y),
    ensures
        x.rank() <= y.rank(),
{
    if x.rank() != 0 {
        let i = choose|i: int|
            0 <= i < a.len() && said(#[trigger] a[i]) == Some(event) && a[i].clock == x;
        assert(a.contains(a[i]));
        assert(b.contains(a[i]));
        let j = choose|j: int| 0 <= j < b.len() && b[j] == a[i];
        assert(said(b[j]) == Some(event));
    }
}

proof fn lemma_items_agree(
    s: ClipState,
    t: ClipState,
    a: Seq<Entry>,
    b: Seq<Entry>,
    now: Time,
    id: EntryId,
)
    requires
        same_entries(a, b),
        names_are_unique(b),
        derived(s, a, now),
        derived(t, b, now),
        s.forgotten == t.forgotten,
        s.purged_through == t.purged_through,
        s.items.contains_key(id),
    ensures
        t.items.contains_key(id),
        t.items[id] == s.items[id],
{
    let i = choose|i: int|
        0 <= i < a.len() && (#[trigger] a[i]).id == id && lives(
            a[i],
            s.forgotten,
            s.purged_through,
            now,
        ) && s.items[id] == item_for(a[i], now);
    assert(a.contains(a[i]));
    assert(b.contains(a[i]));
    let j = choose|j: int| 0 <= j < b.len() && b[j] == a[i];
    assert(lives(b[j], t.forgotten, t.purged_through, now));
    assert(t.items.contains_key(id));
    let k = choose|k: int|
        0 <= k < b.len() && (#[trigger] b[k]).id == id && lives(
            b[k],
            t.forgotten,
            t.purged_through,
            now,
        ) && t.items[id] == item_for(b[k], now);
    assert(b[k].id == b[j].id);
}

/// Every machine folding the same entries reaches the same state, in whatever
/// order they arrive: the same history, the same selection, and the same
/// memory of what was forgotten, purged and cleared.
pub proof fn machines_converge(
    s: ClipState,
    t: ClipState,
    a: Seq<Entry>,
    b: Seq<Entry>,
    now: Time,
)
    requires
        fresh(s),
        fresh(t),
        same_entries(a, b),
        names_are_unique(a),
    ensures
        ({
            let x = s.fold(arrivals(a), now).0;
            let y = t.fold(arrivals(b), now).0;
            &&& x.items == y.items
            &&& x.forgotten == y.forgotten
            &&& x.purged_through == y.purged_through
            &&& x.cleared_through == y.cleared_through
            &&& x.selected() == y.selected()
        }),
{
    assert(names_are_unique(b)) by {
        assert forall|i: int, j: int|
            0 <= i < b.len() && 0 <= j < b.len() && (#[trigger] b[i]).id == (
            #[trigger] b[j]).id implies b[i] == b[j] by {
            assert(b.contains(b[i]) && b.contains(b[j]));
            assert(a.contains(b[i]) && a.contains(b[j]));
            let m = choose|m: int| 0 <= m < a.len() && a[m] == b[i];
            let n = choose|n: int| 0 <= n < a.len() && a[n] == b[j];
            assert(a[m].id == a[n].id);
        }
    }
    lemma_fold_derives(s, a, now);
    lemma_fold_derives(t, b, now);
    assert(same_entries(b, a));
    lemma_derived_agree(s.fold(arrivals(a), now).0, t.fold(arrivals(b), now).0, a, b, now);
}

/// Two clipboards that are made up of the same entries agree.
proof fn lemma_derived_agree(
    x: ClipState,
    y: ClipState,
    a: Seq<Entry>,
    b: Seq<Entry>,
    now: Time,
)
    requires
        same_entries(a, b),
        same_entries(b, a),
        names_are_unique(a),
        names_are_unique(b),
        derived(x, a, now),
        derived(y, b, now),
    ensures
        x.items == y.items,
        x.forgotten == y.forgotten,
        x.purged_through == y.purged_through,
        x.cleared_through == y.cleared_through,
        x.selected() == y.selected(),
{
    assert forall|id: EntryId| x.forgotten.contains(id) == y.forgotten.contains(id) by {
        if forgets(a, id) {
            let i = choose|i: int|
                0 <= i < a.len() && said(#[trigger] a[i]) == Some(EventView::Forget(id));
            assert(a.contains(a[i]));
            let j = choose|j: int| 0 <= j < b.len() && b[j] == a[i];
            assert(said(b[j]) == Some(EventView::Forget(id)));
        }
        if forgets(b, id) {
            let i = choose|i: int|
                0 <= i < b.len() && said(#[trigger] b[i]) == Some(EventView::Forget(id));
            assert(b.contains(b[i]));
            assert(a.contains(b[i]));
            let j = choose|j: int| 0 <= j < a.len() && a[j] == b[i];
            assert(said(a[j]) == Some(EventView::Forget(id)));
        }
    }
    assert(x.forgotten =~= y.forgotten);
    lemma_latest_agrees(a, b, EventView::Purge, x.purged_through, y.purged_through);
    lemma_latest_agrees(b, a, EventView::Purge, y.purged_through, x.purged_through);
    Hlc::rank_is_unique(x.purged_through, y.purged_through);
    lemma_latest_agrees(a, b, EventView::Clear, x.cleared_through, y.cleared_through);
    lemma_latest_agrees(b, a, EventView::Clear, y.cleared_through, x.cleared_through);
    Hlc::rank_is_unique(x.cleared_through, y.cleared_through);
    assert forall|id: EntryId| #[trigger] x.items.contains_key(id) implies y.items.contains_key(id)
        && y.items[id] == x.items[id] by {
        lemma_items_agree(x, y, a, b, now, id);
    }
    assert forall|id: EntryId| #[trigger] y.items.contains_key(id) implies x.items.contains_key(id) by {
        lemma_items_agree(y, x, b, a, now, id);
    }
    assert(x.items =~= y.items);
    assert forall|id: EntryId| #[trigger] x.items.contains_key(id) implies x.items[id].id == id by {
        let i = choose|i: int|
            0 <= i < a.len() && (#[trigger] a[i]).id == id && lives(
                a[i],
                x.forgotten,
                x.purged_through,
                now,
            ) && x.items[id] == item_for(a[i], now);
        assert(a[i].id == id);
    }
    lemma_same_selection(x, y);
}

/// The selection depends on the history and on the last clear alone.
pub proof fn lemma_same_selection(x: ClipState, y: ClipState)
    requires
        x.items == y.items,
        x.cleared_through == y.cleared_through,
        forall|id: EntryId| #[trigger] x.items.contains_key(id) ==> x.items[id].id == id,
    ensures
        x.selected() == y.selected(),
{
    if exists|id: EntryId| x.is_selected(id) {
        let id = choose|id: EntryId| x.is_selected(id);
        assert(x.is_selected(id));
        assert(y.is_selected(id));
        let other = choose|other: EntryId| y.is_selected(other);
        assert(y.is_selected(other));
        assert(model::item_order(x.items[id]) == model::item_order(x.items[other]));
        OrderKey::rank_is_unique(
            OrderKey { clock: x.items[id].clock, id: x.items[id].id },
            OrderKey { clock: x.items[other].clock, id: x.items[other].id },
        );
    } else if exists|id: EntryId| y.is_selected(id) {
        let id = choose|id: EntryId| y.is_selected(id);
        assert(x.is_selected(id));
    }
}

/// An entry whose lifetime runs out while it is the selection leaves the
/// clipboard empty: the previous one does not come back.
pub proof fn an_expired_selection_leaves_the_clipboard_empty(state: ClipState, id: EntryId)
    requires
        state.valid(),
        state.selected() == Some(id),
    ensures
        state.expire_one(id).selected() is None,
{
    let after = state.expire_one(id);
    assert(state.is_selected(id));
    if exists|other: EntryId| after.is_selected(other) {
        let other = choose|other: EntryId| after.is_selected(other);
        assert(after.is_selected(other));
        assert(state.items.contains_key(other));
        assert(model::item_order(state.items[other]) <= model::item_order(state.items[id]));
        assert(state.items[other].clock.rank() <= state.items[id].clock.rank());
    }
}

/// Clearing empties the clipboard and leaves the history alone, as long as
/// nothing in it claims to be written later than the clear.
pub proof fn a_clear_empties_the_clipboard(state: ClipState, entry: Entry, now: Time)
    requires
        said(entry) == Some(EventView::Clear),
        forall|id: EntryId| #[trigger]
            state.items.contains_key(id) ==> state.items[id].clock.rank() <= entry.clock.rank(),
    ensures
        state.add(entry, now).0.selected() is None,
        state.add(entry, now).0.items == state.items,
{
    let after = state.add(entry, now).0;
    if exists|id: EntryId| after.is_selected(id) {
        let id = choose|id: EntryId| after.is_selected(id);
        assert(after.is_selected(id));
        assert(state.items.contains_key(id));
    }
}

/// An entry that was forgotten, or written before a purge, never enters the
/// history, however late it arrives.
pub proof fn what_is_forgotten_stays_forgotten(state: ClipState, entry: Entry, now: Time)
    requires
        state.forgotten.contains(entry.id) || entry.clock.rank() <= state.purged_through.rank(),
        !state.items.contains_key(entry.id),
    ensures
        !state.add(entry, now).0.items.contains_key(entry.id),
{
    if said(entry) == Some(EventView::Purge) {
        let stale = model::named_in_order(
            state.items,
            |item: ItemView| item.clock.rank() <= entry.clock.rank(),
        );
        lemma_without_all(
            ClipState { purged_through: state.purged_through.later(entry.clock), ..state },
            stale,
        );
    }
}

/// Whether an entry is one that was forgotten, or purged.
pub open spec fn is_removed(state: ClipState, entry: Entry) -> bool {
    state.forgotten.contains(entry.id) || entry.clock.rank() <= state.purged_through.rank()
}

/// Whether some changes bring no entry of a name.
pub open spec fn none_brings(changes: Seq<Change>, id: EntryId) -> bool {
    forall|i: int|
        0 <= i < changes.len() ==> ((#[trigger] changes[i]) matches Change::Added(entry) ==> entry.id
            != id)
}

/// What was removed stays so, whatever else happens, and out of the history.
proof fn lemma_stays_removed(state: ClipState, changes: Seq<Change>, now: Time, entry: Entry)
    requires
        is_removed(state, entry),
        !state.items.contains_key(entry.id),
        none_brings(changes, entry.id),
    ensures
        is_removed(state.fold(changes, now).0, entry),
        !state.fold(changes, now).0.items.contains_key(entry.id),
    decreases changes.len(),
{
    if changes.len() > 0 {
        let less = changes.drop_last();
        assert forall|i: int| 0 <= i < less.len() implies ((#[trigger] less[i]) matches Change::Added(
            entry2,
        ) ==> entry2.id != entry.id) by {
            assert(less[i] == changes[i]);
        }
        lemma_stays_removed(state, less, now, entry);
        let before = state.fold(less, now).0;
        assert(changes[changes.len() - 1] == changes.last());
        if let Change::Added(other) = changes.last() {
            lemma_add_keeps_removed(before, other, now, entry);
        }
    }
}

proof fn lemma_add_keeps_removed(state: ClipState, other: Entry, now: Time, entry: Entry)
    requires
        is_removed(state, entry),
        !state.items.contains_key(entry.id),
        other.id != entry.id,
    ensures
        is_removed(state.add(other, now).0, entry),
        !state.add(other, now).0.items.contains_key(entry.id),
{
    if said(other) == Some(EventView::Purge) {
        let stale = model::named_in_order(
            state.items,
            |item: ItemView| item.clock.rank() <= other.clock.rank(),
        );
        lemma_without_all(
            ClipState { purged_through: state.purged_through.later(other.clock), ..state },
            stale,
        );
    }
}

/// A removal that arrives before the entry it covers still takes effect, with
/// anything in between: when the entry comes it is asked to be forgotten and
/// nothing else, it is neither in the history nor in the log, so no peer is
/// sent it, and the watermark stays where it is, so no peer sends it again.
pub proof fn a_removal_that_comes_first_still_takes_effect(
    state: ClipState,
    removal: Entry,
    between: Seq<Change>,
    entry: Entry,
    copy: CopyView,
    now: Time,
    later: Time,
)
    requires
        said(removal) == Some(EventView::Forget(entry.id)) || said(removal) == Some(
            EventView::Purge,
        ) && entry.clock.rank() <= removal.clock.rank(),
        said(entry) == Some(EventView::Copy(copy)),
        !state.items.contains_key(entry.id),
        none_brings(between, entry.id),
    ensures
        ({
            let held = state.add(removal, now).0.fold(between, later).0;
            let (after, effects) = held.add(entry, later);
            &&& effects == seq![EffectView::Forget(entry.id)]
            &&& !after.items.contains_key(entry.id)
            &&& after.items == held.items
            &&& !after.log.entries.contains_key(entry.id)
            &&& after.log.have == held.log.have
            &&& forall|wires: Seq<WireEntry>, want: Map<EndpointId, u64>, i: int|
                #![trigger state::sent(wires, after.log, want), wires[i]]
                state::sent(wires, after.log, want) && 0 <= i < wires.len() ==> wires[i].id
                    != entry.id
        }),
{
    let removed = state.add(removal, now).0;
    if said(removal) == Some(EventView::Purge) {
        let stale = model::named_in_order(
            state.items,
            |item: ItemView| item.clock.rank() <= removal.clock.rank(),
        );
        lemma_without_all(
            ClipState { purged_through: state.purged_through.later(removal.clock), ..state },
            stale,
        );
    }
    lemma_stays_removed(removed, between, later, entry);
}

/// Forgetting an entry takes it out of the history, and remembers to.
pub proof fn forgetting_takes_effect(state: ClipState, entry: Entry, target: EntryId, now: Time)
    requires
        said(entry) == Some(EventView::Forget(target)),
    ensures
        !state.add(entry, now).0.items.contains_key(target),
        !state.add(entry, now).0.log.entries.contains_key(target),
        state.add(entry, now).0.forgotten.contains(target),
{
}

/// A purge leaves nothing in the history that was written before it.
pub proof fn a_purge_drops_everything_before_it(
    state: ClipState,
    entry: Entry,
    now: Time,
    id: EntryId,
)
    requires
        state.valid(),
        said(entry) == Some(EventView::Purge),
        state.add(entry, now).0.items.contains_key(id),
    ensures
        state.items.contains_key(id),
        state.items[id].clock.rank() > entry.clock.rank(),
{
    let p = |item: ItemView| item.clock.rank() <= entry.clock.rank();
    let stale = model::named_in_order(state.items, p);
    lemma_without_all(
        ClipState { purged_through: state.purged_through.later(entry.clock), ..state },
        stale,
    );
    let set = state.items.dom().filter(|id: EntryId| p(state.items[id]));
    ordmap::lemma_in_order_holds(set);
    assert(set.contains(id) == (state.items[id].clock.rank() <= entry.clock.rank()));
}

/// Bringing the clipboard in line twice asks for nothing the second time: an
/// entry reaches the clipboard once.
pub proof fn an_entry_reaches_the_clipboard_once(state: ClipState, now: Time, later: Time)
    requires
        state.valid(),
        state.pause.apply.running(now),
    ensures
        state.reconcile(now).0.reconcile(later).1 == Seq::<EffectView>::empty(),
        state.reconcile(now).0.reconcile(later).0 == state.reconcile(now).0,
{
    let after = state.reconcile(now).0;
    lemma_same_selection(state, after);
}

/// A restart puts nothing on the clipboard: what was read back has had its
/// turn on it.
pub proof fn a_restart_puts_nothing_on_the_clipboard(
    state: ClipState,
    wires: Seq<WireEntry>,
    now: Time,
    later: Time,
)
    requires
        state.restore(wires, now).valid(),
    ensures
        state.restore(wires, now).reconcile(later) == (
            state.restore(wires, now),
            Seq::<EffectView>::empty(),
        ),
{
    let (log, changes) = model::restore_all(state.log, wires, now.whole_millis());
    let folded = ClipState { log, ..state }.fold(changes, now).0;
    let after = state.restore(wires, now);
    assert(after == ClipState { applied: folded.selected(), ..folded });
    lemma_same_selection(after, folded);
}

/// While applying is paused nothing reaches the clipboard.
pub proof fn a_pause_keeps_the_clipboard_as_it_is(state: ClipState, now: Time)
    requires
        !state.pause.apply.running(now),
    ensures
        state.reconcile(now) == (state, Seq::<EffectView>::empty()),
{
}

/// A pause with a deadline lifts itself when the deadline comes, and stays
/// lifted; one without never does.
pub proof fn a_pause_with_a_deadline_lifts_itself(until: Time, now: Time, later: Time)
    requires
        now.nanos <= later.nanos,
    ensures
        (Switch::Paused { until: Some(until) }).running(until),
        (Switch::Paused { until: Some(until) }).running(now) ==> (Switch::Paused {
            until: Some(until),
        }).running(later),
        now.nanos < until.nanos ==> !(Switch::Paused { until: Some(until) }).running(now),
        !(Switch::Paused { until: None }).running(now),
        Switch::On.running(now),
{
}

/// Whether none of some effects writes an entry to disk that must not touch
/// it.
pub open spec fn spares_the_disk(effects: Seq<EffectView>) -> bool {
    forall|i: int|
        0 <= i < effects.len() ==> ((#[trigger] effects[i]) matches EffectView::Store(entry)
            ==> entry.durable)
}

/// Only an entry marked durable is ever written to disk, which is what keeps a
/// secret off it.
pub proof fn a_secret_never_reaches_the_disk(state: ClipState, changes: Seq<Change>, now: Time)
    ensures
        spares_the_disk(state.fold(changes, now).1),
        spares_the_disk(state.ingest(changes, now).1),
    decreases changes.len(),
{
    if changes.len() > 0 {
        a_secret_never_reaches_the_disk(state, changes.drop_last(), now);
        let (before, effects) = state.fold(changes.drop_last(), now);
        let more = before.take(changes.last(), now).1;
        assert(spares_the_disk(more));
        let all = effects + more;
        assert forall|i: int| 0 <= i < all.len() implies ((#[trigger] all[i]) matches
            EffectView::Store(entry) ==> entry.durable) by {
            if i < effects.len() {
                assert(all[i] == effects[i]);
            } else {
                assert(all[i] == more[i - effects.len()]);
            }
        }
    }
    let (folded, effects) = state.fold(changes, now);
    let more = folded.reconcile(now).1;
    assert(spares_the_disk(more));
    let all = effects + more;
    assert forall|i: int| 0 <= i < all.len() implies ((#[trigger] all[i]) matches EffectView::Store(
        entry,
    ) ==> entry.durable) by {
        if i < effects.len() {
            assert(all[i] == effects[i]);
        } else {
            assert(all[i] == more[i - effects.len()]);
        }
    }
}

/// A secret of a peer is taken as one: it is not marked durable.
pub proof fn a_secret_of_a_peer_is_not_durable(payload: Seq<u8>, copy: CopyView)
    requires
        codec::decoding(payload) == Some(EventView::Copy(copy)),
        copy.secret,
    ensures
        !model::is_durable(payload),
{
}

/// A lifetime is never stretched: what is given one is gone a lifetime after
/// it was written, and a lifetime from now at the latest.
pub proof fn a_lifetime_is_never_stretched(clock: Hlc, ttl: u32, now: Time)
    requires
        now.nanos + ttl * NANOS_PER_SEC <= u128::MAX,
    ensures
        model::deadline(clock, ttl, now).nanos <= clock.millis * NANOS_PER_MILLI + ttl
            * NANOS_PER_SEC,
        model::deadline(clock, ttl, now).nanos <= now.nanos + ttl * NANOS_PER_SEC,
{
}

/// A preview of text is one safe line: it holds no control character, not even
/// a line break, and is no longer than a line.
pub proof fn previews_are_one_safe_line(t: Seq<char>, i: int)
    ensures
        0 <= i < preview::text_preview(t).len() ==> !text::control(preview::text_preview(t)[i]),
        preview::text_preview(t).len() <= preview::PREVIEW_CHARS + 3,
{
    let lines = preview::written(crate::files::parts(t, '\n'));
    let line = name::sanitized(
        if lines.len() > 0 {
            lines[0]
        } else {
            Seq::empty()
        },
    );
    assert forall|k: int| 0 <= k < line.len() implies !text::control(#[trigger] line[k]) by {}
    let short = preview::shortened(line);
    assert forall|k: int| 0 <= k < short.len() implies !text::control(#[trigger] short[k]) by {
        if line.len() > preview::PREVIEW_CHARS && k < preview::PREVIEW_CHARS {
            assert(short[k] == line[k]);
        }
    }
    let whole = preview::text_preview(t);
    if 0 <= i < whole.len() {
        if i < short.len() {
            assert(whole[i] == short[i]);
        }
    }
}

/// A preview of a secret shows nothing of it.
pub proof fn a_secret_is_never_shown(mime: Seq<char>, bytes: Seq<u8>)
    ensures
        preview::preview_of(mime, bytes, true) == "<secret>"@,
{
}

/// An entry that is picked is copied anew: its secrecy and its whole lifetime
/// with it, and one that was copied here exactly as it was.
pub proof fn picking_keeps_what_was_copied(
    state: ClipState,
    copy: CopyView,
    id: EntryId,
    default: Span,
)
    ensures
        state.pick_event(copy, id, default) matches EventView::Copy(picked) && picked.secret
            == copy.secret && (copy.ttl is Some || !copy.secret ==> picked.ttl == copy.ttl) && (
        state.holds(id) ==> picked.files == copy.files),
        state.is_ours(id) && (copy.ttl is Some || !copy.secret) ==> state.pick_event(
            copy,
            id,
            default,
        ) == EventView::Copy(copy),
{
}

/// What is left of a selection without its file references names no file on
/// the machine that copied it, and is never nothing.
pub proof fn a_path_does_not_leave_its_machine(reps: Seq<RepView>, i: int)
    ensures
        offer::stripped_reps(reps).len() > 0,
        0 <= i < offer::stripped_reps(reps).len() ==> !mime::local(offer::stripped_reps(reps)[i].0),
{
    lemma_kept(reps);
    if offer::kept(reps).len() == 0 {
        lemma_plain_text_is_not_local();
    }
}

proof fn lemma_kept(reps: Seq<RepView>)
    ensures
        forall|i: int|
            0 <= i < offer::kept(reps).len() ==> !mime::local((#[trigger] offer::kept(reps)[i]).0),
    decreases reps.len(),
{
    if reps.len() > 0 {
        lemma_kept(reps.drop_last());
        let before = offer::kept(reps.drop_last());
        let after = offer::kept(reps);
        assert forall|i: int| 0 <= i < after.len() implies !mime::local((#[trigger] after[i]).0) by {
            if i < before.len() {
                assert(after[i] == before[i]);
            }
        }
    }
}

proof fn lemma_plain_text_is_not_local()
    ensures
        !mime::local(mime::PLAIN_TEXT@),
{
    reveal_strlit("text/plain;charset=utf-8");
    reveal_strlit("text/uri-list");
    reveal_strlit("x-special/gnome-copied-files");
    reveal_strlit("x-special/nautilus-clipboard");
    reveal_strlit("application/x-kde-cutselection");
}

/// Whether no type is offered twice.
pub open spec fn offered_once(serves: Seq<ServeView>) -> bool {
    forall|i: int, j: int, m: Seq<char>|
        0 <= i < j < serves.len() && #[trigger] serves[i].0.contains(m) ==> !(
        #[trigger] serves[j].0.contains(m))
}

proof fn lemma_fresh(serves: Seq<ServeView>, mimes: Seq<Seq<char>>, m: Seq<char>)
    ensures
        offer::fresh(serves, mimes).contains(m) == (mimes.contains(m) && !offer::offered(
            serves,
            m,
        )),
    decreases mimes.len(),
{
    if mimes.len() > 0 {
        let rest = mimes.drop_last();
        lemma_fresh(serves, rest, m);
        let before = offer::fresh(serves, rest);
        let after = offer::fresh(serves, mimes);
        if after.contains(m) {
            let k = choose|k: int| 0 <= k < after.len() && after[k] == m;
            if k < before.len() {
                assert(before[k] == m);
            } else {
                assert(mimes[mimes.len() - 1] == m);
            }
        }
        if before.contains(m) {
            let k = choose|k: int| 0 <= k < before.len() && before[k] == m;
            assert(after[k] == m);
        }
        if mimes.contains(m) {
            let k = choose|k: int| 0 <= k < mimes.len() && mimes[k] == m;
            if k < rest.len() {
                assert(rest[k] == m);
            } else if !offer::offered(serves, m) {
                assert(after[after.len() - 1] == m);
            }
        }
        if rest.contains(m) {
            let k = choose|k: int| 0 <= k < rest.len() && rest[k] == m;
            assert(mimes[k] == m);
        }
    }
}

/// A selection is offered under each of its types once.
pub proof fn a_type_is_offered_once(reps: Seq<RepView>)
    ensures
        offered_once(offer::served(reps)),
    decreases reps.len(),
{
    if reps.len() > 0 {
        a_type_is_offered_once(reps.drop_last());
        let before = offer::served(reps.drop_last());
        let after = offer::served(reps);
        let mimes = offer::fresh(before, mime::announced(reps.last().0));
        assert forall|i: int, j: int, m: Seq<char>|
            0 <= i < j < after.len() && #[trigger] after[i].0.contains(m) implies !(
        #[trigger] after[j].0.contains(m)) by {
            if j < before.len() {
                assert(after[i] == before[i] && after[j] == before[j]);
                assert(before[i].0.contains(m));
                assert(!before[j].0.contains(m));
            } else {
                assert(after[j].0 == mimes);
                assert(before[i].0.contains(m));
                lemma_fresh(before, mime::announced(reps.last().0), m);
            }
        }
    }
}

proof fn lemma_accept_advances(log: LogState, wires: Seq<WireEntry>, wall: u64)
    ensures
        forall|origin: EndpointId| #[trigger]
            log::mark_at(log.have, origin) <= log::mark_at(
                model::accept_all(log, wires, wall).0.have,
                origin,
            ),
        forall|i: int|
            0 <= i < wires.len() ==> (#[trigger] wires[i]).id.seq <= log::mark_at(
                model::accept_all(log, wires, wall).0.have,
                wires[i].id.origin,
            ),
    decreases wires.len(),
{
    if wires.len() > 0 {
        let rest = wires.drop_last();
        lemma_accept_advances(log, rest, wall);
        let before = model::accept_all(log, rest, wall).0;
        let after = model::accept_all(log, wires, wall).0;
        assert forall|origin: EndpointId| #[trigger] log::mark_at(before.have, origin)
            <= log::mark_at(after.have, origin) by {}
        assert forall|i: int| 0 <= i < wires.len() implies (#[trigger] wires[i]).id.seq
            <= log::mark_at(after.have, wires[i].id.origin) by {
            if i < rest.len() {
                assert(rest[i] == wires[i]);
                assert(log::mark_at(before.have, wires[i].id.origin) <= log::mark_at(
                    after.have,
                    wires[i].id.origin,
                ));
            }
        }
        assert forall|origin: EndpointId| #[trigger] log::mark_at(log.have, origin)
            <= log::mark_at(after.have, origin) by {
            assert(log::mark_at(before.have, origin) <= log::mark_at(after.have, origin));
        }
    }
}

/// A machine that has taken what another sent it is missing nothing the other
/// holds.
pub proof fn a_fetch_leaves_nothing_missing(
    theirs: LogState,
    ours: LogState,
    wires: Seq<WireEntry>,
    wall: u64,
    id: EntryId,
)
    requires
        state::sent(wires, theirs, ours.have),
        theirs.valid(),
        theirs.entries.contains_key(id),
    ensures
        !store::missing(theirs.entries[id], model::accept_all(ours, wires, wall).0.have),
{
    lemma_accept_advances(ours, wires, wall);
    let entry = theirs.entries[id];
    if store::missing(entry, ours.have) {
        let j = choose|j: int| 0 <= j < wires.len() && (#[trigger] wires[j]).carries(entry);
        assert(wires[j].id.seq <= log::mark_at(
            model::accept_all(ours, wires, wall).0.have,
            wires[j].id.origin,
        ));
    } else {
        assert(log::mark_at(ours.have, id.origin) <= log::mark_at(
            model::accept_all(ours, wires, wall).0.have,
            id.origin,
        ));
    }
}

/// Taking entries that have all been seen changes nothing.
proof fn lemma_accept_seen(log: LogState, wires: Seq<WireEntry>, wall: u64)
    requires
        forall|i: int|
            0 <= i < wires.len() ==> (#[trigger] wires[i]).id.seq <= log::mark_at(
                log.have,
                wires[i].id.origin,
            ),
    ensures
        model::accept_all(log, wires, wall) == (log, Seq::<Change>::empty()),
    decreases wires.len(),
{
    if wires.len() > 0 {
        let rest = wires.drop_last();
        assert forall|i: int| 0 <= i < rest.len() implies (#[trigger] rest[i]).id.seq
            <= log::mark_at(log.have, rest[i].id.origin) by {
            assert(rest[i] == wires[i]);
        }
        lemma_accept_seen(log, rest, wall);
        assert(wires[wires.len() - 1].id.seq <= log::mark_at(
            log.have,
            wires[wires.len() - 1].id.origin,
        ));
        assert(Seq::<Change>::empty() + Seq::<Change>::empty() =~= Seq::<Change>::empty());
    }
}

/// Replication is idempotent: taking a batch again changes nothing.
pub proof fn taking_a_batch_twice_changes_nothing(
    log: LogState,
    wires: Seq<WireEntry>,
    wall: u64,
    later: u64,
)
    ensures
        model::accept_all(model::accept_all(log, wires, wall).0, wires, later) == (
            model::accept_all(log, wires, wall).0,
            Seq::<Change>::empty(),
        ),
{
    lemma_accept_advances(log, wires, wall);
    lemma_accept_seen(model::accept_all(log, wires, wall).0, wires, later);
}

proof fn lemma_without_all_shrinks(state: ClipState, ids: Seq<EntryId>, id: EntryId)
    requires
        state.without_all(ids).log.entries.contains_key(id),
    ensures
        state.log.entries.contains_key(id),
        state.without_all(ids).log.entries[id] == state.log.entries[id],
    decreases ids.len(),
{
    if ids.len() > 0 {
        lemma_without_all_shrinks(state, ids.drop_last(), id);
    }
}

/// Taking changes into account drops entries of the log, and changes none.
pub proof fn lemma_fold_shrinks(state: ClipState, changes: Seq<Change>, now: Time, id: EntryId)
    requires
        state.fold(changes, now).0.log.entries.contains_key(id),
    ensures
        state.log.entries.contains_key(id),
        state.fold(changes, now).0.log.entries[id] == state.log.entries[id],
    decreases changes.len(),
{
    if changes.len() > 0 {
        let before = state.fold(changes.drop_last(), now).0;
        match changes.last() {
            Change::Added(entry) => {
                if said(entry) == Some(EventView::Purge) {
                    let stale = model::named_in_order(
                        before.items,
                        |item: ItemView| item.clock.rank() <= entry.clock.rank(),
                    );
                    lemma_without_all_shrinks(
                        ClipState {
                            purged_through: before.purged_through.later(entry.clock),
                            ..before
                        },
                        stale,
                        id,
                    );
                }
            },
            Change::Dropped(_) => {},
        }
        lemma_fold_shrinks(state, changes.drop_last(), now, id);
    }
}

pub proof fn lemma_part(part: Map<EntryId, Entry>, whole: Map<EntryId, Entry>, id: EntryId)
    requires
        part.submap_of(whole),
        part.contains_key(id),
    ensures
        whole.contains_key(id),
        part[id] == whole[id],
{
    assert(part.dom().contains(id));
    assert(whole.dom().contains(id));
}

/// The entry that a machine writes when something is copied on it.
pub open spec fn written(state: ClipState, copy: CopyView, durable: bool, now: Time) -> Entry {
    Entry {
        id: state.log.next_id(),
        clock: crate::log::clock::next_reading(state.log.clock, now.whole_millis()),
        payload: log::payload_of(codec::encoding(EventView::Copy(copy))),
        durable,
    }
}

/// What is copied is what is pasted: as long as the log keeps the entry of a
/// copy, reading it gives back everything that was copied.
pub proof fn what_is_copied_is_what_is_pasted(
    state: ClipState,
    copy: CopyView,
    durable: bool,
    now: Time,
)
    requires
        state.valid(),
        codec::legible(EventView::Copy(copy)),
        state.say(EventView::Copy(copy), durable, now).0.log.entries.contains_key(
            state.log.next_id(),
        ),
    ensures
        state.say(EventView::Copy(copy), durable, now).0.copied(state.log.next_id()) == Some(copy),
{
    let event = EventView::Copy(copy);
    let entry = written(state, copy, durable, now);
    let (after, changes) = state.write(event, durable, now);
    lemma_fold_shrinks(after, changes, now, entry.id);
    let all = state.log.entries.insert(entry.id, entry);
    store::lemma_survivors(all, state.log.limits);
    lemma_part(after.log.entries, all, entry.id);
}

/// A copy that arrives, and older entries that go for it.
pub proof fn lemma_fold_arrival(
    state: ClipState,
    entry: Entry,
    copy: CopyView,
    item: ItemView,
    ids: Seq<EntryId>,
    now: Time,
)
    requires
        said(entry) == Some(EventView::Copy(copy)),
        !state.forgotten.contains(entry.id),
        entry.clock.rank() > state.purged_through.rank(),
        model::item_of(entry, copy, now) == Some(item),
        !ids.contains(entry.id),
    ensures
        ({
            let folded = state.fold(seq![Change::Added(entry)] + store::dropped(ids), now).0;
            &&& folded == (ClipState { items: folded.items, ..state })
            &&& folded.items.contains_key(entry.id)
            &&& folded.items[entry.id] == item
            &&& forall|other: EntryId| #[trigger]
                folded.items.contains_key(other) && other != entry.id
                    ==> state.items.contains_key(other) && folded.items[other]
                    == state.items[other]
        }),
    decreases ids.len(),
{
    let changes = seq![Change::Added(entry)] + store::dropped(ids);
    if ids.len() == 0 {
        assert(changes =~= seq![Change::Added(entry)]);
        assert(changes.drop_last() =~= Seq::empty());
        assert(state.fold(changes.drop_last(), now).0 == state);
    } else {
        let rest = ids.drop_last();
        assert(changes.drop_last() =~= seq![Change::Added(entry)] + store::dropped(rest));
        assert(changes.last() == Change::Dropped(ids.last()));
        if rest.contains(entry.id) {
            let i = choose|i: int| 0 <= i < rest.len() && rest[i] == entry.id;
            assert(ids[i] == entry.id);
        }
        lemma_fold_arrival(state, entry, copy, item, rest, now);
        assert(ids[ids.len() - 1] == ids.last());
    }
}

/// A copy takes the clipboard: it becomes the selection, and is put on the
/// clipboard under every type it carries. Unless the caps leave no room for it,
/// its lifetime is already over, it was forgotten or purged before it was
/// written, or something in the history claims to be written later.
pub proof fn a_copy_takes_the_clipboard(
    state: ClipState,
    copy: CopyView,
    durable: bool,
    now: Time,
)
    requires
        state.valid(),
        codec::legible(EventView::Copy(copy)),
        ({
            let entry = written(state, copy, durable, now);
            &&& state.write(EventView::Copy(copy), durable, now).0.log.entries.contains_key(
                entry.id,
            )
            &&& model::item_of(entry, copy, now) is Some
            &&& !state.forgotten.contains(entry.id)
            &&& entry.clock.rank() > state.purged_through.rank()
            &&& entry.clock.rank() > state.cleared_through.rank()
            &&& forall|other: EntryId| #[trigger]
                state.items.contains_key(other) ==> model::item_order(state.items[other])
                    <= entry.order()
            &&& state.applied != Some(entry.id)
            &&& !state.ready.contains_key(entry.id)
        }),
    ensures
        ({
            let (after, effects) = state.say(EventView::Copy(copy), durable, now);
            &&& after.selected() == Some(state.log.next_id())
            &&& state.pause.apply.running(now) ==> after.applied == Some(state.log.next_id())
                && effects.len() > 0 && effects.last() == EffectView::Apply(
                offer::served(copy.reps),
            )
        }),
{
    let event = EventView::Copy(copy);
    let entry = written(state, copy, durable, now);
    let item = model::item_of(entry, copy, now)->0;
    let (kept, changes) = state.write(event, durable, now);
    let all = state.log.entries.insert(entry.id, entry);
    store::lemma_survivors(all, state.log.limits);
    store::lemma_evictions(all, state.log.limits, entry.id);
    let gone = store::without(store::evictions(all, state.log.limits), entry.id);
    store::lemma_left_out(store::evictions(all, state.log.limits), entry.id);
    assert(changes == seq![Change::Added(entry)] + store::dropped(gone));
    lemma_fold_arrival(kept, entry, copy, item, gone, now);
    let folded = kept.fold(changes, now).0;
    assert(folded.is_selected(entry.id));
    model::lemma_selected(folded, entry.id);
    lemma_part(kept.log.entries, all, entry.id);
    assert(folded.copied(entry.id) == Some(copy));
    let after = state.say(event, durable, now).0;
    assert(after.is_selected(entry.id));
    model::lemma_selected(after, entry.id);
}

/// Every entry that taking a batch brought in is one of the batch.
proof fn lemma_accept_brings(log: LogState, wires: Seq<WireEntry>, wall: u64, id: EntryId)
    requires
        log.valid(),
        model::accept_all(log, wires, wall).0.entries.contains_key(id),
        !log.entries.contains_key(id),
    ensures
        exists|i: int|
            0 <= i < wires.len() && (#[trigger] wires[i]).id == id && model::accept_all(
                log,
                wires,
                wall,
            ).0.entries[id].payload == log::payload_of(wires[i].payload@),
    decreases wires.len(),
{
    if wires.len() > 0 {
        let rest = wires.drop_last();
        let before = model::accept_all(log, rest, wall).0;
        let after = model::accept_all(log, wires, wall).0;
        let wire = wires.last();
        let entry = store::taken(wire, model::is_durable(wire.payload@));
        lemma_accept_finite(log, rest, wall);
        let all = before.entries.insert(entry.id, entry);
        store::lemma_survivors(all, before.limits);
        let fresh = wire.id.seq > log::mark_at(before.have, wire.id.origin);
        if fresh {
            lemma_part(after.entries, all, id);
        }
        if fresh && id == wire.id {
            assert(wires[wires.len() - 1] == wire);
        } else {
            assert(before.entries.contains_key(id) && after.entries[id] == before.entries[id]);
            lemma_accept_brings(log, rest, wall, id);
            let i = choose|i: int|
                0 <= i < rest.len() && (#[trigger] rest[i]).id == id && before.entries[id].payload
                    == log::payload_of(rest[i].payload@);
            assert(wires[i] == rest[i]);
        }
    }
}

pub proof fn lemma_accept_finite(log: LogState, wires: Seq<WireEntry>, wall: u64)
    requires
        log.entries.dom().finite(),
    ensures
        model::accept_all(log, wires, wall).0.entries.dom().finite(),
    decreases wires.len(),
{
    if wires.len() > 0 {
        let rest = wires.drop_last();
        lemma_accept_finite(log, rest, wall);
        let before = model::accept_all(log, rest, wall).0;
        let wire = wires.last();
        let entry = store::taken(wire, model::is_durable(wire.payload@));
        store::lemma_survivors(before.entries.insert(entry.id, entry), before.limits);
    }
}

/// What one machine copies, another pastes: an entry that came over from a
/// machine says on this one what it says on that one.
pub proof fn what_one_machine_copies_another_pastes(
    theirs: ClipState,
    ours: ClipState,
    wires: Seq<WireEntry>,
    now: Time,
    id: EntryId,
)
    requires
        ours.valid(),
        state::sent(wires, theirs.log, ours.log.have),
        log::all_intact(wires),
        !ours.log.entries.contains_key(id),
        ours.accept(wires, now).0.log.entries.contains_key(id),
    ensures
        ours.accept(wires, now).0.copied(id) == theirs.copied(id),
{
    let (taken, changes) = model::accept_all(ours.log, wires, now.whole_millis());
    let held = ClipState { log: taken, ..ours };
    lemma_fold_shrinks(held, changes, now, id);
    lemma_accept_brings(ours.log, wires, now.whole_millis(), id);
    let i = choose|i: int|
        0 <= i < wires.len() && (#[trigger] wires[i]).id == id && taken.entries[id].payload
            == log::payload_of(wires[i].payload@);
    assert(log::intact(wires[i].payload@));
    assert(wires[i].carries(theirs.log.entries[id]));
}

/// The entries that were read back from the disk.
pub open spec fn read_back(wires: Seq<WireEntry>) -> Seq<Entry> {
    wires.map_values(|wire: WireEntry| store::taken(wire, true))
}

/// Some entries, by their names.
pub open spec fn by_name(entries: Seq<Entry>) -> Map<EntryId, Entry>
    decreases entries.len(),
{
    if entries.len() == 0 {
        Map::empty()
    } else {
        by_name(entries.drop_last()).insert(entries.last().id, entries.last())
    }
}

proof fn lemma_by_name(entries: Seq<Entry>)
    ensures
        by_name(entries).dom().finite(),
        forall|id: EntryId| #[trigger]
            by_name(entries).contains_key(id) ==> exists|i: int|
                0 <= i < entries.len() && (#[trigger] entries[i]).id == id,
    decreases entries.len(),
{
    if entries.len() > 0 {
        let rest = entries.drop_last();
        lemma_by_name(rest);
        assert forall|id: EntryId| #[trigger] by_name(entries).contains_key(id) implies exists|
            i: int,
        | 0 <= i < entries.len() && (#[trigger] entries[i]).id == id by {
            if id == entries.last().id {
                assert(entries[entries.len() - 1].id == id);
            } else {
                assert(by_name(rest).contains_key(id));
                let i = choose|i: int| 0 <= i < rest.len() && (#[trigger] rest[i]).id == id;
                assert(entries[i] == rest[i]);
            }
        }
    }
}

/// Reading back what fits the caps brings all of it back.
proof fn lemma_restore_keeps(log: LogState, wires: Seq<WireEntry>, wall: u64)
    requires
        log.entries == Map::<EntryId, Entry>::empty(),
        forall|i: int, j: int|
            0 <= i < j < wires.len() ==> (#[trigger] wires[i]).id != (#[trigger] wires[j]).id,
        store::fits(by_name(read_back(wires)), log.limits),
    ensures
        model::restore_all(log, wires, wall).0.entries == by_name(read_back(wires)),
        model::restore_all(log, wires, wall).0.limits == log.limits,
        model::restore_all(log, wires, wall).1 == arrivals(read_back(wires)),
    decreases wires.len(),
{
    let all = read_back(wires);
    lemma_by_name(all);
    if wires.len() == 0 {
        assert(arrivals(all) =~= Seq::<Change>::empty());
    } else {
        let rest = wires.drop_last();
        let before = read_back(rest);
        let entry = store::taken(wires.last(), true);
        assert(all.drop_last() =~= before);
        assert(all.last() == entry);
        lemma_by_name(before);
        if by_name(before).contains_key(entry.id) {
            let i = choose|i: int| 0 <= i < before.len() && (#[trigger] before[i]).id == entry.id;
            assert(wires[i].id == wires[wires.len() - 1].id);
        }
        assert(by_name(all).remove(entry.id) =~= by_name(before));
        store::lemma_fits_remove(by_name(all), log.limits, entry.id);
        assert forall|i: int, j: int| 0 <= i < j < rest.len() implies (#[trigger] rest[i]).id != (
        #[trigger] rest[j]).id by {
            assert(rest[i] == wires[i] && rest[j] == wires[j]);
        }
        lemma_restore_keeps(log, rest, wall);
        let had = model::restore_all(log, rest, wall).1;
        assert(store::evictions(by_name(all), log.limits) =~= Seq::<EntryId>::empty());
        assert(store::without(Seq::<EntryId>::empty(), entry.id) =~= Seq::<EntryId>::empty());
        assert(store::reported(entry, Seq::<EntryId>::empty()) =~= seq![Change::Added(entry)]);
        assert(arrivals(all) =~= had + seq![Change::Added(entry)]);
    }
}

/// A restart brings the history back: what was read back from the disk makes up
/// the clipboard that those entries make up anywhere.
pub proof fn a_restart_brings_the_history_back(
    state: ClipState,
    wires: Seq<WireEntry>,
    there: ClipState,
    entries: Seq<Entry>,
    now: Time,
)
    requires
        fresh(state),
        state.log.entries == Map::<EntryId, Entry>::empty(),
        forall|i: int, j: int|
            0 <= i < j < wires.len() ==> (#[trigger] wires[i]).id != (#[trigger] wires[j]).id,
        store::fits(by_name(read_back(wires)), state.log.limits),
        fresh(there),
        same_entries(read_back(wires), entries),
    ensures
        ({
            let back = state.restore(wires, now);
            let known = there.fold(arrivals(entries), now).0;
            &&& back.items == known.items
            &&& back.forgotten == known.forgotten
            &&& back.purged_through == known.purged_through
            &&& back.cleared_through == known.cleared_through
            &&& back.selected() == known.selected()
        }),
{
    let wall = now.whole_millis();
    lemma_restore_keeps(state.log, wires, wall);
    let held = ClipState { log: model::restore_all(state.log, wires, wall).0, ..state };
    let all = read_back(wires);
    assert forall|i: int, j: int|
        0 <= i < all.len() && 0 <= j < all.len() && (#[trigger] all[i]).id == (
        #[trigger] all[j]).id implies all[i] == all[j] by {
        assert(wires[i].id == wires[j].id);
    }
    machines_converge(held, there, all, entries, now);
    lemma_fold_derives(held, all, now);
    let folded = held.fold(arrivals(all), now).0;
    let back = state.restore(wires, now);
    assert forall|id: EntryId| #[trigger] back.items.contains_key(id) implies back.items[id].id
        == id by {
        assert(folded.items.contains_key(id));
        let i = choose|i: int|
            0 <= i < all.len() && (#[trigger] all[i]).id == id && lives(
                all[i],
                folded.forgotten,
                folded.purged_through,
                now,
            ) && folded.items[id] == item_for(all[i], now);
        assert(all[i].id == id);
    }
    lemma_same_selection(back, folded);
}

} // verus!
