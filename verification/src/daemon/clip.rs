//! The clipboard service: the clipboard state machine, wired up.
//!
//! [`Clipboard`] decides *what* should happen and returns effects; this turns
//! them into orders for the disk, the compositor, the file service and the
//! peers, and feeds it from the three places clipboard changes come from:
//!
//! ```text
//!   compositor ──► captured ─┐
//!   CLI (socket) ──► copy ───┼─► Clipboard ──► effects ──► disk
//!   peers ────────► accept ──┘        │                └─► compositor
//!                                     └─► announce ────────► peers
//! ```

use crate::clip::codec;
use crate::clip::event;
use crate::clip::event::{CopyView, EventView, Rep, RepView, Selection};
use crate::clip::history;
use crate::clip::mime;
use crate::clip::model;
use crate::clip::model::{ClipError, ClipState, EffectView, ItemView, Pause, Switch};
use crate::clip::offer;
use crate::clip::offer::{Serve, ServeView};
use crate::clip::state;
use crate::clip::state::{Captured, Clipboard, Effect, Item};
use crate::clip::wayland::Policy;
use crate::config::Settings;
use crate::daemon::backoff;
use crate::daemon::backoff::Backoff;
use crate::files;
use crate::files::FileRef;
use crate::log::disk;
use crate::log::disk::{Op, OpView, Writer};
use crate::log::{Change, Checkpoint, EndpointId, Entry, EntryId, Log, Watermark, WireEntry};
use crate::ordmap::{OrdMap, Ranked};
use crate::text;
use crate::time::{Span, Time};
use std::sync::Arc;
use vstd::prelude::*;

verus! {

/// How many seconds the service sleeps at most with nothing due. It is what
/// catches the things no event announces: a wall clock that jumped over an
/// entry's lifetime, and a pause whose time is up.
pub const EXPIRY_FLOOR: u64 = 60;

/// How long, in seconds, to wait before looking for a compositor again, at
/// first.
pub const RECONNECT_MIN: u64 = 1;

/// How long, in seconds, to wait before looking for a compositor again, at
/// most.
pub const RECONNECT_MAX: u64 = 30;

/// What is told of a clipboard that is turned off.
pub const TURNED_OFF: &'static str = "turned off in config.toml";

/// When the compositor is looked for.
#[derive(Debug)]
pub struct Reconnect {
    pub backoff: Backoff,
    pub at: Option<Time>,
}

impl Reconnect {
    /// Looks for one at once; never, when the clipboard is turned off: retrying
    /// forever on a server would be noise.
    pub fn new(clipboard: bool, now: Time) -> (reconnect: Self)
        ensures
            reconnect.at == (if clipboard {
                Some(now)
            } else {
                None
            }),
            reconnect.backoff == (Backoff {
                min: Span::of_secs(RECONNECT_MIN),
                max: Span::of_secs(RECONNECT_MAX),
                current: Span::of_secs(RECONNECT_MIN),
            }),
    {
        Reconnect {
            backoff: Backoff::new(Span::from_secs(RECONNECT_MIN), Span::from_secs(RECONNECT_MAX)),
            at: if clipboard {
                Some(now)
            } else {
                None
            },
        }
    }

    /// Whether it is time to.
    pub fn is_due(&self, now: Time) -> (r: bool)
        ensures
            r == (self.at matches Some(at) && at.nanos <= now.nanos),
    {
        match self.at {
            Some(at) => at.nanos <= now.nanos,
            None => false,
        }
    }

    /// One was found.
    pub fn found(&mut self)
        ensures
            final(self).at is None,
            final(self).backoff == (Backoff {
                current: old(self).backoff.min,
                ..old(self).backoff
            }),
    {
        self.backoff.reset();
        self.at = None;
    }

    /// None was found, or the one there was is gone.
    pub fn missing(&mut self, now: Time)
        ensures
            exists|share: u64| #[trigger]
                backoff::fair(share) && final(self).at == Some(
                    now.later(backoff::jittered(old(self).backoff.current, share)),
                ),
            final(self).backoff == (Backoff {
                current: backoff::doubled(old(self).backoff.current, old(self).backoff.max),
                ..old(self).backoff
            }),
    {
        let delay = self.backoff.next_delay();
        self.at = Some(now.plus(delay));
    }
}

/// The state kept outside the log: where our own numbering is up to, and which
/// directions the user paused.
#[derive(Clone, Copy, Debug, PartialEq, Eq, Structural)]
pub struct Persisted {
    pub checkpoint: Checkpoint,
    pub pause: Pause,
}

impl Default for Persisted {
    fn default() -> (persisted: Self)
        ensures
            persisted.checkpoint.next_seq == 0,
            persisted.checkpoint.clock.millis == 0,
            persisted.checkpoint.clock.counter == 0,
            persisted.pause == (Pause { capture: Switch::On, apply: Switch::On }),
    {
        Persisted { checkpoint: Checkpoint::default(), pause: Pause::default() }
    }
}

/// Why the clipboard is not being read right now.
#[derive(Debug)]
pub enum BackendState {
    Running,
    /// No compositor or compatible data-control protocol is available.
    Down(String),
}

/// What the service asks for, in order.
pub enum Order {
    /// Change the history directory.
    Disk(Op),
    /// Take the local selection, and serve these.
    Offer(Vec<Serve>),
    /// Empty the local selection.
    Clear,
    /// Bring the files of this entry here.
    Fetch(EntryId),
    /// Drop the files no entry names any more.
    Sweep,
    /// Write the state kept outside the log. Losing it would make this machine
    /// reuse entry numbers it already used, which every other machine would
    /// then ignore as already seen.
    Persist(Persisted),
    /// Tell the peers what this machine holds.
    Announce(Watermark),
    /// See whether there is a new lifetime to wait for.
    Wake,
}

/// What the service asks for, for contracts.
pub enum OrderView {
    Disk(OpView),
    Offer(Seq<ServeView>),
    Clear,
    Fetch(EntryId),
    Sweep,
    Persist(Persisted),
    Announce(Map<EndpointId, u64>),
    Wake,
}

impl View for Order {
    type V = OrderView;

    open spec fn view(&self) -> OrderView {
        match *self {
            Order::Disk(op) => OrderView::Disk(op@),
            Order::Offer(serves) => OrderView::Offer(offer::serve_views(serves@)),
            Order::Clear => OrderView::Clear,
            Order::Fetch(id) => OrderView::Fetch(id),
            Order::Sweep => OrderView::Sweep,
            Order::Persist(persisted) => OrderView::Persist(persisted),
            Order::Announce(have) => OrderView::Announce(have@),
            Order::Wake => OrderView::Wake,
        }
    }
}

/// Some orders, for contracts.
pub open spec fn order_views(orders: Seq<Order>) -> Seq<OrderView> {
    orders.map_values(|order: Order| order@)
}

/// Whether the marks in some orders are in order.
pub open spec fn sound(orders: Seq<Order>) -> bool {
    forall|i: int|
        0 <= i < orders.len() ==> ((#[trigger] orders[i]) matches Order::Announce(have)
            ==> have.wf())
}

/// What one effect is ordered as, when the compositor is there or not, with the
/// history in a directory.
pub open spec fn order_for(effect: EffectView, connected: bool, dir: Seq<u8>) -> Seq<OrderView> {
    match effect {
        EffectView::Store(entry) => match disk::storing(dir, entry) {
            Some(op) => seq![OrderView::Disk(op)],
            None => Seq::empty(),
        },
        EffectView::Forget(id) => seq![OrderView::Disk(OpView::Forget(disk::file_of(dir, id)))],
        EffectView::Apply(serves) => if connected {
            seq![OrderView::Offer(serves)]
        } else {
            Seq::empty()
        },
        EffectView::ClearSelection => if connected {
            seq![OrderView::Clear]
        } else {
            Seq::empty()
        },
        EffectView::Fetch(id) => seq![OrderView::Fetch(id)],
    }
}

/// What some effects are ordered as, one after the other.
pub open spec fn orders_for(effects: Seq<EffectView>, connected: bool, dir: Seq<u8>) -> Seq<
    OrderView,
>
    decreases effects.len(),
{
    if effects.len() == 0 {
        Seq::empty()
    } else {
        orders_for(effects.drop_last(), connected, dir) + order_for(effects.last(), connected, dir)
    }
}

/// Whether some effects drop an entry.
pub open spec fn forgets_any(effects: Seq<EffectView>) -> bool {
    exists|i: int| 0 <= i < effects.len() && (#[trigger] effects[i]) is Forget
}

/// What a clipboard keeps outside the log.
pub open spec fn persisted_of(board: ClipState) -> Persisted {
    Persisted {
        checkpoint: Checkpoint { next_seq: board.log.next_seq, clock: board.log.clock },
        pause: board.pause,
    }
}

/// What a change to the clipboard asks for. Nothing is asked for by a change
/// that changed nothing, which is what keeps an idle mesh silent. An entry that
/// went takes its files with it: they are swept rather than deleted one by one,
/// since the same content may be named by another entry, and only the whole
/// history knows.
pub open spec fn performed(
    effects: Seq<EffectView>,
    connected: bool,
    dir: Seq<u8>,
    board: ClipState,
) -> Seq<OrderView> {
    if effects.len() == 0 {
        Seq::empty()
    } else {
        orders_for(effects, connected, dir) + (if forgets_any(effects) {
            seq![OrderView::Sweep]
        } else {
            Seq::empty()
        }) + seq![
            OrderView::Persist(persisted_of(board)),
            OrderView::Announce(board.log.have),
            OrderView::Wake,
        ]
    }
}

/// The clipboard, and where what it decides goes.
pub struct ClipService {
    board: Clipboard,
    settings: Arc<Settings>,
    history: Writer,
    connected: bool,
    down: Option<String>,
}

/// The service, for contracts.
#[verifier::ext_equal]
pub struct ServiceView {
    pub board: ClipState,
    /// Where the history is.
    pub dir: Seq<u8>,
    /// Whether a compositor is there.
    pub connected: bool,
    /// Why none is, if none is.
    pub down: Option<Seq<char>>,
}

impl View for ClipService {
    type V = ServiceView;

    closed spec fn view(&self) -> ServiceView {
        ServiceView {
            board: self.board@,
            dir: self.history.dir@,
            connected: self.connected,
            down: match self.down {
                Some(reason) => Some(reason@),
                None => None,
            },
        }
    }
}

impl ServiceView {
    /// Whether some orders are what a change to the clipboard asks for, and
    /// whether it leaves the service as it should.
    pub open spec fn did(
        self,
        change: (ClipState, Seq<EffectView>),
        orders: Seq<Order>,
        after: ServiceView,
    ) -> bool {
        &&& after == (ServiceView { board: change.0, ..self })
        &&& order_views(orders) == performed(change.1, self.connected, self.dir, change.0)
        &&& sound(orders)
    }
}

/// Why a request to the clipboard fails.
#[derive(Debug)]
pub enum ServiceError {
    /// The clipboard refuses.
    Clip(ClipError),
    /// Sharing files is turned off in `config.toml`.
    FilesOff,
    /// The entry names no file.
    NoFiles(EntryId),
    /// The entry was copied here: its files are where they always were.
    CopiedHere(EntryId),
    /// The entry does not carry the type asked for; it carries these.
    NoSuchType { id: EntryId, types: Vec<String> },
}

/// Whether some entries can be read back: no own entry is at the end of the
/// numbering.
pub open spec fn restorable(entries: Seq<WireEntry>, identity: EndpointId) -> bool {
    forall|i: int|
        0 <= i < entries.len() && (#[trigger] entries[i]).id.origin == identity
            ==> entries[i].id.seq < u64::MAX
}

/// A clipboard that holds nothing yet.
pub open spec fn blank(identity: EndpointId, settings: Settings, persisted: Persisted) -> ClipState {
    ClipState {
        log: crate::log::LogState {
            origin: identity,
            limits: crate::log::Limits {
                entries: if settings.kept_entries() <= crate::net::proto::MAX_FETCH_ENTRIES {
                    settings.kept_entries()
                } else {
                    crate::net::proto::MAX_FETCH_ENTRIES
                },
                bytes: crate::config::settings::as_length(settings.history_budget),
                payload: crate::log::MAX_ENTRY_BYTES as usize,
            },
            clock: persisted.checkpoint.clock,
            next_seq: if persisted.checkpoint.next_seq >= 1 {
                persisted.checkpoint.next_seq
            } else {
                1
            },
            entries: Map::empty(),
            have: Map::empty(),
        },
        items: Map::empty(),
        forgotten: Set::empty(),
        purged_through: crate::log::Hlc { millis: 0, counter: 0 },
        cleared_through: crate::log::Hlc { millis: 0, counter: 0 },
        applied: None,
        ready: Map::empty(),
        pause: persisted.pause,
    }
}

impl ClipService {
    /// Whether the clipboard is in order, and under the settings of the
    /// service.
    pub closed spec fn wf(&self) -> bool {
        self.board.wf() && self.board.configured() == *self.settings
    }

    /// The settings of the service.
    pub closed spec fn configured(&self) -> Settings {
        *self.settings
    }

    /// Starts the service over the history read back from the disk.
    ///
    /// What the caps or a replayed removal dropped as the history was read back
    /// holds clipboard contents in plain text, so its files go now rather than
    /// at some later cleanup.
    pub fn open(
        identity: EndpointId,
        settings: Arc<Settings>,
        persisted: Persisted,
        history: Writer,
        entries: Vec<WireEntry>,
        now: Time,
    ) -> (opened: (Self, Vec<Order>))
        requires
            restorable(entries@, identity),
        ensures
            opened.0.wf(),
            opened.0.configured() == *settings,
            sound(opened.1@),
            crate::log::all_intact(entries@),
            opened.0@ == (ServiceView {
                board: blank(identity, *settings, persisted).restore(entries@, now),
                dir: history.dir@,
                connected: false,
                down: Some("starting"@),
            }),
            order_views(opened.1@) == performed(
                model::forgets(model::lost(opened.0@.board.log, entries@)),
                false,
                history.dir@,
                opened.0@.board,
            ),
    {
        let limits = Clipboard::limits(&settings);
        let log = Log::new(identity, limits, persisted.checkpoint);
        let mut board = Clipboard::new(log, settings.clone(), persisted.pause);
        assert(board@ =~= blank(identity, *settings, persisted));
        let dropped = board.restore_at(entries, now);
        let service = ClipService {
            board,
            settings,
            history,
            connected: false,
            down: Some("starting".to_owned()),
        };
        let orders = service.perform(dropped);
        (service, orders)
    }

    /// Turns the effects of a change into orders.
    fn perform(&self, effects: Vec<Effect>) -> (orders: Vec<Order>)
        requires
            self.wf(),
        ensures
            order_views(orders@) == performed(
                state::effect_views(effects@),
                self@.connected,
                self@.dir,
                self@.board,
            ),
            sound(orders@),
    {
        let ghost all = state::effect_views(effects@);
        let mut orders: Vec<Order> = Vec::new();
        if effects.len() == 0 {
            assert(order_views(orders@) =~= Seq::<OrderView>::empty());
            return orders;
        }
        let mut forgot: bool = false;
        assert(order_views(orders@) =~= Seq::<OrderView>::empty());
        assert(all.take(0) =~= Seq::<EffectView>::empty());
        for effect in it: effects
            invariant
                all == state::effect_views(it.seq()),
                self.wf(),
                order_views(orders@) == orders_for(
                    all.take(it.index()),
                    self@.connected,
                    self@.dir,
                ),
                forgot == forgets_any(all.take(it.index())),
                sound(orders@),
        {
            let ghost here = it.index();
            let ghost before = order_views(orders@);
            let ghost view = effect@;
            proof {
                assert(all.take(here + 1).drop_last() =~= all.take(here));
                assert(all.take(here + 1).last() == view);
                assert(all[here] == view);
                lemma_forgets_more(all, here);
            }
            let ghost was = orders@;
            match effect {
                Effect::Store(entry) => {
                    match self.history.store(&entry) {
                        Some(op) => {
                            orders.push(Order::Disk(op));
                        },
                        None => {},
                    }
                },
                Effect::Forget(id) => {
                    orders.push(Order::Disk(self.history.forget(id)));
                    forgot = true;
                },
                Effect::Apply(serves) => {
                    if self.connected {
                        orders.push(Order::Offer(serves));
                    }
                },
                Effect::ClearSelection => {
                    if self.connected {
                        orders.push(Order::Clear);
                    }
                },
                Effect::Fetch(id) => {
                    orders.push(Order::Fetch(id));
                },
            }
            proof {
                assert(order_views(orders@) =~= before + order_for(
                    view,
                    self@.connected,
                    self@.dir,
                ));
            }
        }
        assert(all.take(all.len() as int) =~= all);
        let ghost so_far = order_views(orders@);
        if forgot {
            orders.push(Order::Sweep);
        }
        orders.push(Order::Persist(self.persisted()));
        orders.push(Order::Announce(self.board.have()));
        orders.push(Order::Wake);
        assert(order_views(orders@) =~= performed(all, self@.connected, self@.dir, self@.board));
        orders
    }

    /// What is kept outside the log.
    pub fn persisted(&self) -> (persisted: Persisted)
        requires
            self.wf(),
        ensures
            persisted == persisted_of(self@.board),
    {
        Persisted { checkpoint: self.board.checkpoint(), pause: self.board.pause() }
    }

    /// The most bytes one selection may have, as it is configured.
    pub fn entry_limit(&self) -> (limit: u64)
        ensures
            limit == self.configured().max_entry_size,
    {
        self.settings.max_entry_size
    }

    /// What is taken off the clipboard, and what is not.
    pub fn policy(&self) -> (policy: Policy)
        requires
            self.wf(),
        ensures
            policy.max_bytes == self.configured().entry_cap(),
            mime::owned_texts(policy.ignore@) == mime::owned_texts(
                self.configured().ignore_mime@,
            ),
    {
        let all = &self.settings.ignore_mime;
        let mut ignore: Vec<String> = Vec::new();
        let mut i: usize = 0;
        while i < all.len()
            invariant
                i <= all.len(),
                ignore@.len() == i,
                forall|j: int| 0 <= j < i ==> (#[trigger] ignore@[j])@ == all@[j]@,
            decreases all.len() - i,
        {
            ignore.push(all[i].clone());
            i += 1;
        }
        assert(mime::owned_texts(ignore@) =~= mime::owned_texts(all@));
        Policy { max_bytes: self.settings.max_entry_bytes(), ignore }
    }

    /// Whether this machine has a number left to give an entry.
    pub fn can_write(&self) -> (r: bool)
        requires
            self.wf(),
        ensures
            r == (self@.board.log.next_seq < u64::MAX - 1),
    {
        self.board.checkpoint().next_seq < u64::MAX - 1
    }

    /// What this machine holds, for the announcements.
    pub fn have(&self) -> (have: Watermark)
        requires
            self.wf(),
        ensures
            have.wf(),
            have@ == self@.board.log.have,
    {
        self.board.have()
    }

    /// The entries a peer at `want` is missing.
    pub fn since(&self, want: &Watermark) -> (wires: Vec<WireEntry>)
        requires
            self.wf(),
            want.wf(),
        ensures
            state::sent(wires@, self@.board.log, want@),
    {
        self.board.since(want)
    }

    /// Takes a batch of entries from a peer.
    pub fn accept(&mut self, entries: Vec<WireEntry>, now: Time) -> (result: Result<
        Vec<Order>,
        ClipError,
    >)
        requires
            old(self).wf(),
        ensures
            final(self).wf(),
            final(self).configured() == old(self).configured(),
            match old(self)@.board.batch_refusal(entries@) {
                Some(error) => result == Err::<Vec<Order>, ClipError>(error) && final(self)@ == old(self)@,
                None => {
                    &&& result matches Ok(orders)
                    &&& crate::log::all_intact(entries@)
                    &&& old(self)@.did(
                        old(self)@.board.accept(entries@, now),
                        orders@,
                        final(self)@,
                    )
                },
            },
    {
        match self.board.accept_at(entries, now) {
            Ok(effects) => Ok(self.perform(effects)),
            Err(error) => Err(error),
        }
    }

    /// Copies something from this machine.
    pub fn copy(&mut self, rep: Rep, secret: bool, ttl: Option<Span>, now: Time) -> (result: Result<
        (EntryId, Vec<Order>),
        ClipError,
    >)
        requires
            old(self).wf(),
            old(self)@.board.log.next_seq < u64::MAX,
        ensures
            final(self).wf(),
            final(self).configured() == old(self).configured(),
            wrote(
                old(self)@,
                model::copy_event(
                    seq![rep@],
                    Seq::empty(),
                    secret,
                    ttl,
                    old(self).configured().secret_ttl,
                ),
                !secret,
                old(self).configured().entry_cap(),
                now,
                result,
                final(self)@,
            ),
    {
        let ghost view = rep@;
        let list: Vec<FileRef> = Vec::new();
        let selection = Selection::of(rep);
        proof {
            assert(files::manifest(list@) =~= Seq::<files::FileName>::empty());
            assert(selection@ =~= seq![view]);
        }
        match self.board.copy_at(selection, list, secret, ttl, now) {
            Ok((id, effects)) => Ok((id, self.perform(effects))),
            Err(error) => Err(error),
        }
    }

    /// Whether files may be copied at all.
    pub fn shares_files(&self) -> (result: Result<(), ServiceError>)
        requires
            self.wf(),
        ensures
            result == (if self.configured().files {
                Ok::<(), ServiceError>(())
            } else {
                Err(ServiceError::FilesOff)
            }),
    {
        if self.settings.files {
            Ok(())
        } else {
            Err(ServiceError::FilesOff)
        }
    }

    /// Copies files from this machine, once their contents are spooled, so the
    /// entry never names what this machine cannot serve.
    ///
    /// What goes on the clipboard is the paths, the way a file manager offers
    /// them. Pasting it here is pasting the originals; pasting it on another
    /// machine is pasting the copies that land there.
    pub fn copy_files(
        &mut self,
        paths: &[Vec<u8>],
        list: Vec<FileRef>,
        ttl: Option<Span>,
        now: Time,
    ) -> (result: Result<(EntryId, Vec<Order>), ClipError>)
        requires
            old(self).wf(),
            old(self)@.board.log.next_seq < u64::MAX,
        ensures
            final(self).wf(),
            final(self).configured() == old(self).configured(),
            wrote(
                old(self)@,
                model::copy_event(
                    event::files_selection(files::uri::path_views(paths@)),
                    files::manifest(list@),
                    false,
                    ttl,
                    old(self).configured().secret_ttl,
                ),
                true,
                old(self).configured().entry_cap(),
                now,
                result,
                final(self)@,
            ),
    {
        match self.board.copy_at(Selection::of_files(paths), list, false, ttl, now) {
            Ok((id, effects)) => Ok((id, self.perform(effects))),
            Err(error) => Err(error),
        }
    }

    /// Records a selection the compositor reported, with the files it named
    /// once they are spooled.
    pub fn record(&mut self, captured: Captured, list: Vec<FileRef>, now: Time) -> (result: Result<
        Vec<Order>,
        ClipError,
    >)
        requires
            old(self).wf(),
            old(self)@.board.log.next_seq < u64::MAX,
        ensures
            final(self).wf(),
            final(self).configured() == old(self).configured(),
            ({
                let outcome = old(self)@.board.capture(
                    captured.selection@,
                    files::manifest(list@),
                    captured.secret,
                    old(self).configured().entry_cap(),
                    old(self).configured().secret_ttl,
                    now,
                );
                match outcome.1 {
                    Ok(effects) => {
                        &&& result matches Ok(orders)
                        &&& old(self)@.board.capture_event(
                            captured.selection@,
                            files::manifest(list@),
                            captured.secret,
                            old(self).configured().entry_cap(),
                            old(self).configured().secret_ttl,
                            now,
                        ) matches Some(event) ==> codec::legible(event)
                        &&& old(self)@.did((outcome.0, effects), orders@, final(self)@)
                    },
                    Err(error) => {
                        &&& result == Err::<Vec<Order>, ClipError>(error)
                        &&& final(self)@ == (ServiceView { board: outcome.0, ..old(self)@ })
                    },
                }
            }),
    {
        match self.board.captured_at(captured, list, now) {
            Ok(effects) => Ok(self.perform(effects)),
            Err(error) => Err(error),
        }
    }

    /// Records that an entry's files are on this machine now.
    pub fn materialized(&mut self, id: EntryId, tree: Vec<u8>, now: Time) -> (orders: Vec<Order>)
        requires
            old(self).wf(),
        ensures
            final(self).wf(),
            final(self).configured() == old(self).configured(),
            old(self)@.did(
                old(self)@.board.materialize(id, tree@, now),
                orders@,
                final(self)@,
            ),
    {
        let effects = self.board.materialized_at(id, tree, now);
        self.perform(effects)
    }

    /// Drops everything whose lifetime has run out.
    pub fn expire(&mut self, now: Time) -> (orders: Vec<Order>)
        requires
            old(self).wf(),
        ensures
            final(self).wf(),
            final(self).configured() == old(self).configured(),
            old(self)@.did(old(self)@.board.expire(now, now), orders@, final(self)@),
    {
        let effects = self.board.expire_at(now, now);
        self.perform(effects)
    }

    /// The files an entry names.
    pub fn files(&self, id: EntryId) -> (list: Arc<Vec<FileRef>>)
        requires
            self.wf(),
        ensures
            files::manifest(list@) == (if self@.board.items.contains_key(id) {
                self@.board.items[id].files
            } else {
                Seq::empty()
            }),
    {
        self.board.files(id)
    }

    /// What the spool may keep: the entries the history still holds, and the
    /// content they name.
    pub fn referenced(&self) -> (kept: (OrdMap<EntryId, ()>, OrdMap<files::Hash, ()>))
        requires
            self.wf(),
        ensures
            kept.0.wf(),
            kept.1.wf(),
            kept.0@.dom() == self@.board.items.dom(),
            forall|hash: files::Hash| #[trigger]
                kept.1@.contains_key(hash) == state::content_named(self@.board.items, hash),
    {
        self.board.referenced()
    }

    /// The tree the files of an entry are laid out in, once they are here.
    pub fn tree(&self, id: EntryId) -> (tree: Option<&Vec<u8>>)
        requires
            self.wf(),
        ensures
            match tree {
                Some(tree) => self@.board.ready.contains_key(id) && tree@ == self@.board.ready[id],
                None => !self@.board.ready.contains_key(id),
            },
    {
        self.board.tree(id)
    }

    /// Which directions are running.
    pub fn pause(&self) -> (pause: Pause)
        requires
            self.wf(),
        ensures
            pause == self@.board.pause,
    {
        self.board.pause()
    }

    /// Whether the compositor side is running, and why not when it is not.
    pub fn backend_state(&self) -> (found: BackendState)
        ensures
            match self@.down {
                Some(reason) => found matches BackendState::Down(told) && told@ == reason,
                None => found is Running,
            },
    {
        match &self.down {
            Some(reason) => BackendState::Down(reason.clone()),
            None => BackendState::Running,
        }
    }

    /// A compositor is there.
    pub fn connected(&mut self)
        requires
            old(self).wf(),
        ensures
            final(self).wf(),
            final(self).configured() == old(self).configured(),
            final(self)@ == (ServiceView { connected: true, down: None, ..old(self)@ }),
    {
        self.connected = true;
        self.down = None;
    }

    /// No compositor is there, for this reason.
    pub fn mark_down(&mut self, reason: &str)
        requires
            old(self).wf(),
        ensures
            final(self).wf(),
            final(self).configured() == old(self).configured(),
            final(self)@ == (ServiceView { down: Some(reason@), ..old(self)@ }),
    {
        self.down = Some(reason.to_owned());
    }
}

/// What writing a copy comes to.
pub open spec fn wrote(
    before: ServiceView,
    event: EventView,
    durable: bool,
    cap: usize,
    now: Time,
    result: Result<(EntryId, Vec<Order>), ClipError>,
    after: ServiceView,
) -> bool {
    match before.board.copy_refusal(event, cap) {
        Some(error) => result == Err::<(EntryId, Vec<Order>), ClipError>(error) && after == before,
        None => {
            &&& result matches Ok((id, orders))
            &&& id == before.board.log.next_id()
            &&& codec::legible(event)
            &&& before.did(before.board.say(event, durable, now), orders@, after)
        },
    }
}

proof fn lemma_forgets_more(effects: Seq<EffectView>, n: int)
    requires
        0 <= n < effects.len(),
    ensures
        forgets_any(effects.take(n + 1)) == (forgets_any(effects.take(n)) || effects[n] is Forget),
{
    let shorter = effects.take(n);
    let longer = effects.take(n + 1);
    if forgets_any(shorter) {
        let i = choose|i: int| 0 <= i < shorter.len() && (#[trigger] shorter[i]) is Forget;
        assert(longer[i] is Forget);
    }
    if effects[n] is Forget {
        assert(longer[n] is Forget);
    }
    if forgets_any(longer) {
        let i = choose|i: int| 0 <= i < longer.len() && (#[trigger] longer[i]) is Forget;
        if i < n {
            assert(shorter[i] is Forget);
        }
    }
}

/// The entry that what was typed means.
pub open spec fn typed(board: ClipState, needle: Seq<char>) -> Result<EntryId, ClipError> {
    let ids = state::matches(board, needle);
    if ids.len() == 0 {
        Err(ClipError::NoMatch)
    } else if ids.len() == 1 {
        Ok(ids[0])
    } else {
        Err(ClipError::Ambiguous(ids.len() as usize))
    }
}

/// The entry a caller means: what it typed, or the selection when it typed
/// nothing.
pub open spec fn meant(board: ClipState, needle: Option<Seq<char>>) -> Result<EntryId, ClipError> {
    match needle {
        Some(needle) => typed(board, needle),
        None => match board.selected() {
            Some(id) => Ok(id),
            None => Err(ClipError::Empty),
        },
    }
}

/// A text there may be.
pub open spec fn text_view(t: Option<&str>) -> Option<Seq<char>> {
    match t {
        Some(t) => Some(t@),
        None => None,
    }
}

/// Whether a representation is the one a caller asked for: the first under the
/// type it asked for, or the best one when it asked for none.
pub open spec fn asked_for(reps: Seq<RepView>, mime: Option<Seq<char>>, i: int) -> bool {
    match mime {
        Some(mime) => event::is_first_under(reps, mime, i),
        None => i == 0,
    }
}

/// What pasting an entry gives: the type and the bytes of one representation,
/// and the types of the others.
pub open spec fn pasted(
    board: ClipState,
    needle: Option<Seq<char>>,
    mime: Option<Seq<char>>,
    result: Result<(String, Vec<String>, Vec<u8>), ServiceError>,
) -> bool {
    match meant(board, needle) {
        Err(error) => result == Err::<(String, Vec<String>, Vec<u8>), ServiceError>(
            ServiceError::Clip(error),
        ),
        Ok(id) => match board.copied(id) {
            None => result == Err::<(String, Vec<String>, Vec<u8>), ServiceError>(
                ServiceError::Clip(board.body_error(id)),
            ),
            Some(copy) => match result {
                Ok((kind, alternates, bytes)) => exists|i: int|
                    {
                        &&& #[trigger] asked_for(copy.reps, mime, i)
                        &&& 0 <= i < copy.reps.len()
                        &&& kind@ == copy.reps[i].0
                        &&& bytes@ == copy.reps[i].1
                        &&& crate::clip::mime::owned_texts(alternates@) == types(
                            copy.reps.remove(i),
                        )
                    },
                Err(ServiceError::NoSuchType { id: named, types: carried }) => {
                    &&& named == id
                    &&& crate::clip::mime::owned_texts(carried@) == types(copy.reps)
                    &&& forall|i: int| !#[trigger] asked_for(copy.reps, mime, i)
                },
                Err(_) => false,
            },
        },
    }
}

/// The types of some representations.
pub open spec fn types(reps: Seq<RepView>) -> Seq<Seq<char>> {
    reps.map_values(|rep: RepView| rep.0)
}

/// Some representations, for contracts.
pub open spec fn lent(reps: Seq<&Rep>) -> Seq<RepView> {
    reps.map_values(|rep: &Rep| rep@)
}

/// The types of some representations, but for the one at a place.
fn types_but(reps: &Vec<&Rep>, skip: Option<usize>) -> (list: Vec<String>)
    requires
        skip matches Some(i) ==> i < reps@.len(),
    ensures
        crate::clip::mime::owned_texts(list@) == types(
            match skip {
                Some(i) => lent(reps@).remove(i as int),
                None => lent(reps@),
            },
        ),
{
    let ghost all = lent(reps@);
    let ghost wanted = types(
        match skip {
            Some(i) => all.remove(i as int),
            None => all,
        },
    );
    let mut list: Vec<String> = Vec::new();
    let mut i: usize = 0;
    while i < reps.len()
        invariant
            i <= reps.len(),
            all == lent(reps@),
            skip matches Some(at) ==> at < reps@.len(),
            wanted == types(
                match skip {
                    Some(i) => all.remove(i as int),
                    None => all,
                },
            ),
            crate::clip::mime::owned_texts(list@) == wanted.take(
                match skip {
                    Some(at) => if i <= at {
                        i as int
                    } else {
                        i - 1
                    },
                    None => i as int,
                },
            ),
        decreases reps.len() - i,
    {
        let skipped: bool = match skip {
            Some(at) => at == i,
            None => false,
        };
        if !skipped {
            let ghost before = crate::clip::mime::owned_texts(list@);
            let name = reps[i].mime.clone();
            list.push(name);
            assert(crate::clip::mime::owned_texts(list@) =~= before.push(name@));
            assert(all[i as int].0 == name@);
        }
        i += 1;
        assert(crate::clip::mime::owned_texts(list@) =~= wanted.take(
            match skip {
                Some(at) => if i <= at {
                    i as int
                } else {
                    i - 1
                },
                None => i as int,
            },
        ));
    }
    assert(crate::clip::mime::owned_texts(list@) =~= wanted);
    list
}

/// The place of the first representation under a type.
fn first_under(reps: &Vec<&Rep>, mime: &str) -> (at: Option<usize>)
    ensures
        match at {
            Some(i) => event::is_first_under(
                lent(reps@),
                mime@,
                i as int,
            ),
            None => forall|i: int|
                !#[trigger] event::is_first_under(lent(reps@), mime@, i),
        },
{
    let ghost all = lent(reps@);
    let mut i: usize = 0;
    while i < reps.len()
        invariant
            i <= reps.len(),
            all == lent(reps@),
            forall|j: int| 0 <= j < i ==> !text::same_but_case(#[trigger] all[j].0, mime@),
        decreases reps.len() - i,
    {
        assert(all[i as int] == reps@[i as int]@);
        if text::eq_ignore_ascii_case(reps[i].mime.as_str(), mime) {
            return Some(i);
        }
        i += 1;
    }
    None
}

/// Whether a list is a history, newest first.
pub open spec fn newest_first(list: Seq<Item>, board: ClipState) -> bool {
    &&& list.len() == board.items.len()
    &&& forall|i: int|
        0 <= i < list.len() ==> board.items.contains_key((#[trigger] list[i]).id) && list[i]@
            == board.items[list[i].id]
    &&& forall|i: int, j: int|
        0 <= i < j < list.len() ==> model::item_order((#[trigger] list[i])@) > model::item_order(
            (#[trigger] list[j])@,
        )
    &&& forall|id: EntryId| #[trigger]
        board.items.contains_key(id) ==> exists|i: int|
            0 <= i < list.len() && (#[trigger] list[i]).id == id
}

/// What clearing comes to: the selection goes, and then the history when asked.
pub open spec fn clearing(board: ClipState, history: bool, now: Time) -> Result<
    (ClipState, Seq<EffectView>),
    (ClipState, ClipError),
> {
    let refusal = ClipError::Log(crate::log::LogError::TooLarge(board.log.limits.payload));
    let (cleared, effects) = board.say(EventView::Clear, true, now);
    if !board.takes(EventView::Clear) {
        Err((board, refusal))
    } else if !history {
        Ok((cleared, effects))
    } else if !cleared.takes(EventView::Purge) {
        Err(
            (
                cleared,
                ClipError::Log(crate::log::LogError::TooLarge(cleared.log.limits.payload)),
            ),
        )
    } else {
        let (purged, more) = cleared.say(EventView::Purge, true, now);
        Ok((purged, effects + more))
    }
}

/// Where an entry's files are.
pub struct Located {
    pub id: EntryId,
    pub files: Arc<Vec<FileRef>>,
    /// The tree they are laid out in, `None` while they are still on their way.
    pub tree: Option<Vec<u8>>,
}

/// What a compositor tells the daemon.
#[derive(Debug)]
pub enum BackendEvent {
    /// Something was copied by an application other than us.
    Copied(Captured),
    /// The backend is gone: the session ended, or withdrew what the backend was
    /// using. The daemon reconnects.
    Lost(String),
}

/// What is done about it.
#[derive(Debug)]
pub enum Reaction {
    /// Record the selection.
    Record(Captured),
    /// Take the files the selection names into the spool, then record it: an
    /// entry must never name content this machine cannot serve.
    Snapshot { captured: Captured, paths: Vec<Vec<u8>> },
    /// Reconnect to the compositor.
    Reconnect,
}

/// The files whose contents go with a captured selection: those it names, when
/// files are shared. A secret is the exception, since spooling is a write to
/// disk and a secret never touches one.
pub open spec fn spooled_paths(captured: Captured, shares: bool) -> Seq<Seq<u8>> {
    if shares && !captured.secret {
        event::named_files(captured.selection@)
    } else {
        Seq::empty()
    }
}

impl ClipService {
    /// Makes an entry already in the history the selection again.
    pub fn pick(&mut self, needle: &str, now: Time) -> (result: Result<
        (EntryId, Vec<Order>),
        ClipError,
    >)
        requires
            old(self).wf(),
            old(self)@.board.log.next_seq < u64::MAX,
        ensures
            final(self).wf(),
            final(self).configured() == old(self).configured(),
            match typed(old(self)@.board, needle@) {
                Err(error) => result == Err::<(EntryId, Vec<Order>), ClipError>(error) && final(self)@ == old(self)@,
                Ok(id) => match old(self)@.board.copied(id) {
                    None => result == Err::<(EntryId, Vec<Order>), ClipError>(
                        old(self)@.board.body_error(id),
                    ) && final(self)@ == old(self)@,
                    Some(copy) => picked(
                        old(self)@,
                        copy,
                        id,
                        old(self).configured(),
                        now,
                        result,
                        final(self)@,
                    ),
                },
            },
    {
        let id = match self.board.resolve(needle) {
            Ok(item) => item.id,
            Err(error) => {
                return Err(error);
            },
        };
        assert(typed(self@.board, needle@) == Ok::<EntryId, ClipError>(id));
        match self.board.pick_at(id, now) {
            Ok((picked, effects)) => Ok((picked, self.perform(effects))),
            Err(error) => {
                assert(self@ =~= old(self)@);
                Err(error)
            },
        }
    }

    /// One representation of an entry: the selection when none is named, and
    /// its best type when none is asked for.
    ///
    /// Returns the type of the bytes, and the other types the entry carries.
    /// Those are told apart by where they sit rather than by name: the type
    /// asked for is matched whatever its case, so `TEXT/HTML` would otherwise
    /// be listed as an alternative to itself.
    pub fn paste(&self, needle: Option<&str>, mime: Option<&str>) -> (result: Result<
        (String, Vec<String>, Vec<u8>),
        ServiceError,
    >)
        requires
            self.wf(),
        ensures
            pasted(self@.board, text_view(needle), text_view(mime), result),
    {
        let id = match self.board.named(needle) {
            Ok(item) => item.id,
            Err(error) => {
                return Err(ServiceError::Clip(error));
            },
        };
        assert(meant(self@.board, text_view(needle)) == Ok::<EntryId, ClipError>(id));
        let copy = match self.board.body(id) {
            Ok(copy) => copy,
            Err(error) => {
                return Err(ServiceError::Clip(error));
            },
        };
        let reps = copy.selection.reps();
        let ghost all = lent(reps@);
        assert(all =~= copy@.reps);
        let at: usize = match mime {
            Some(mime) => match first_under(&reps, mime) {
                Some(at) => at,
                None => {
                    let carried = types_but(&reps, None);
                    proof {
                        assert forall|i: int| !#[trigger] asked_for(
                            copy@.reps,
                            text_view(Some(mime)),
                            i,
                        ) by {
                            assert(!event::is_first_under(all, mime@, i));
                        }
                    }
                    return Err(ServiceError::NoSuchType { id, types: carried });
                },
            },
            None => 0,
        };
        assert(asked_for(copy@.reps, text_view(mime), at as int));
        let kind = reps[at].mime.clone();
        let bytes = vstd::slice::slice_to_vec(reps[at].bytes.as_slice());
        let alternates = types_but(&reps, Some(at));
        assert(all[at as int] == reps@[at as int]@);
        Ok((kind, alternates, bytes))
    }

    /// Drops one entry from every machine.
    pub fn forget(&mut self, needle: &str, now: Time) -> (result: Result<
        (EntryId, Vec<Order>),
        ClipError,
    >)
        requires
            old(self).wf(),
            old(self)@.board.log.next_seq < u64::MAX,
        ensures
            final(self).wf(),
            final(self).configured() == old(self).configured(),
            match typed(old(self)@.board, needle@) {
                Err(error) => result == Err::<(EntryId, Vec<Order>), ClipError>(error) && final(self)@ == old(self)@,
                Ok(id) => if old(self)@.board.takes(EventView::Forget(id)) {
                    &&& result matches Ok((gone, orders))
                    &&& gone == id
                    &&& codec::writable(EventView::Forget(id)) ==> codec::legible(
                        EventView::Forget(id),
                    )
                    &&& old(self)@.did(
                        old(self)@.board.say(EventView::Forget(id), true, now),
                        orders@,
                        final(self)@,
                    )
                } else {
                    &&& result == Err::<(EntryId, Vec<Order>), ClipError>(
                        ClipError::Log(
                            crate::log::LogError::TooLarge(old(self)@.board.log.limits.payload),
                        ),
                    )
                    &&& final(self)@ == old(self)@
                },
            },
    {
        let id = match self.board.resolve(needle) {
            Ok(item) => item.id,
            Err(error) => {
                return Err(error);
            },
        };
        assert(typed(self@.board, needle@) == Ok::<EntryId, ClipError>(id));
        match self.board.forget_at(id, now) {
            Ok(effects) => Ok((id, self.perform(effects))),
            Err(error) => {
                assert(self@ =~= old(self)@);
                Err(error)
            },
        }
    }

    /// Empties the clipboard everywhere, and the history too when asked.
    pub fn clear(&mut self, history: bool, now: Time) -> (result: Result<Vec<Order>, ClipError>)
        requires
            old(self).wf(),
            old(self)@.board.log.next_seq < u64::MAX - 1,
        ensures
            final(self).wf(),
            final(self).configured() == old(self).configured(),
            match clearing(old(self)@.board, history, now) {
                Ok(change) => {
                    &&& result matches Ok(orders)
                    &&& codec::legible(EventView::Clear)
                    &&& history ==> codec::legible(EventView::Purge)
                    &&& old(self)@.did(change, orders@, final(self)@)
                },
                Err((board, error)) => {
                    &&& result == Err::<Vec<Order>, ClipError>(error)
                    &&& final(self)@ == (ServiceView { board, ..old(self)@ })
                },
            },
    {
        let mut effects = match self.board.clear_at(now) {
            Ok(effects) => effects,
            Err(error) => {
                assert(self@ =~= old(self)@);
                return Err(error);
            },
        };
        let ghost cleared = self.board@;
        let ghost first = state::effect_views(effects@);
        if history {
            proof {
                lemma_next_seq(old(self)@.board, EventView::Clear, now);
            }
            match self.board.purge_at(now) {
                Ok(mut more) => {
                    let ghost second = state::effect_views(more@);
                    effects.append(&mut more);
                    assert(state::effect_views(effects@) =~= first + second);
                },
                Err(error) => {
                    assert(self.board@ == cleared);
                    return Err(error);
                },
            }
        }
        Ok(self.perform(effects))
    }

    /// Pauses or resumes a direction of the clipboard. The state kept outside
    /// the log has to be written next, whatever changed.
    pub fn set_pause(&mut self, capture: Option<Switch>, apply: Option<Switch>, now: Time) -> (r: (
        Pause,
        Vec<Order>,
    ))
        requires
            old(self).wf(),
        ensures
            final(self).wf(),
            final(self).configured() == old(self).configured(),
            ({
                let change = old(self)@.board.switched(capture, apply).reconcile(now);
                &&& final(self)@ == (ServiceView { board: change.0, ..old(self)@ })
                &&& r.0 == change.0.pause
                &&& sound(r.1@)
                &&& order_views(r.1@) == performed(
                    change.1,
                    old(self)@.connected,
                    old(self)@.dir,
                    change.0,
                )
            }),
    {
        let effects = self.board.set_pause_at(capture, apply, now);
        let pause = self.board.pause();
        let orders = self.perform(effects);
        (pause, orders)
    }

    /// The history, newest first, and which entry is the selection.
    pub fn history(&self) -> (r: (Vec<Item>, Option<EntryId>))
        requires
            self.wf(),
        ensures
            newest_first(r.0@, self@.board),
            r.1 == self@.board.selected(),
    {
        let list = self.board.history();
        let mut items: Vec<Item> = Vec::new();
        let mut i: usize = 0;
        while i < list.len()
            invariant
                i <= list.len(),
                items@.len() == i,
                forall|j: int|
                    0 <= j < i ==> (#[trigger] items@[j])@ == list@[j]@ && items@[j].id
                        == list@[j].id,
            decreases list.len() - i,
        {
            let item = list[i].clone();
            assert(item@.id == list@[i as int]@.id);
            items.push(item);
            i += 1;
        }
        proof {
            let board = self@.board;
            assert forall|i: int| 0 <= i < items@.len() implies board.items.contains_key(
                (#[trigger] items@[i]).id,
            ) && items@[i]@ == board.items[items@[i].id] by {
                assert(board.items.contains_key(list@[i].id));
            }
            assert forall|i: int, j: int| 0 <= i < j < items@.len() implies model::item_order(
                (#[trigger] items@[i])@,
            ) > model::item_order((#[trigger] items@[j])@) by {
                assert(model::item_order(list@[i]@) > model::item_order(list@[j]@));
            }
            assert forall|id: EntryId| #[trigger] board.items.contains_key(id) implies exists|i: int|
                0 <= i < items@.len() && (#[trigger] items@[i]).id == id by {
                let k = choose|k: int| 0 <= k < list@.len() && (#[trigger] list@[k]).id == id;
                assert(items@[k].id == id);
            }
        }
        let selected = match self.board.selection() {
            Some(item) => Some(item.id),
            None => None,
        };
        (items, selected)
    }

    /// Where an entry's files are, if they are here: an entry that names files
    /// and was copied elsewhere. One that is not here yet has to be asked for.
    pub fn locate(&self, needle: Option<&str>) -> (result: Result<Located, ServiceError>)
        requires
            self.wf(),
        ensures
            match meant(self@.board, text_view(needle)) {
                Err(error) => result == Err::<Located, ServiceError>(ServiceError::Clip(error)),
                Ok(id) => if self@.board.items[id].files.len() == 0 {
                    result == Err::<Located, ServiceError>(ServiceError::NoFiles(id))
                } else if self@.board.is_ours(id) {
                    result == Err::<Located, ServiceError>(ServiceError::CopiedHere(id))
                } else {
                    &&& result matches Ok(located)
                    &&& located.id == id
                    &&& files::manifest(located.files@) == self@.board.items[id].files
                    &&& match located.tree {
                        Some(tree) => self@.board.ready.contains_key(id) && tree@
                            == self@.board.ready[id],
                        None => !self@.board.ready.contains_key(id),
                    }
                },
            },
    {
        let id = match self.board.named(needle) {
            Ok(item) => item.id,
            Err(error) => {
                return Err(ServiceError::Clip(error));
            },
        };
        assert(meant(self@.board, text_view(needle)) == Ok::<EntryId, ClipError>(id));
        let list = self.board.files(id);
        assert(files::manifest(list@).len() == list@.len());
        if list.len() == 0 {
            return Err(ServiceError::NoFiles(id));
        }
        if self.board.is_local(id) {
            return Err(ServiceError::CopiedHere(id));
        }
        let tree = match self.board.tree(id) {
            Some(tree) => Some(vstd::slice::slice_to_vec(tree.as_slice())),
            None => None,
        };
        Ok(Located { id, files: list, tree })
    }

    /// Handles one event from the compositor.
    pub fn on_backend_event(&mut self, event: BackendEvent) -> (reaction: Reaction)
        requires
            old(self).wf(),
        ensures
            final(self).wf(),
            final(self).configured() == old(self).configured(),
            match event {
                BackendEvent::Lost(reason) => {
                    &&& reaction is Reconnect
                    &&& final(self)@ == (ServiceView {
                        connected: false,
                        down: Some(reason@),
                        ..old(self)@
                    })
                },
                BackendEvent::Copied(captured) => {
                    &&& final(self)@ == old(self)@
                    &&& if spooled_paths(captured, old(self).configured().files).len() == 0 {
                        reaction == Reaction::Record(captured)
                    } else {
                        &&& reaction matches Reaction::Snapshot { captured: kept, paths }
                        &&& kept == captured
                        &&& files::uri::path_views(paths@) == spooled_paths(
                            captured,
                            old(self).configured().files,
                        )
                    }
                },
            },
    {
        match event {
            BackendEvent::Lost(reason) => {
                self.connected = false;
                self.down = Some(reason);
                Reaction::Reconnect
            },
            BackendEvent::Copied(captured) => {
                let paths = if self.settings.files && !captured.secret {
                    captured.selection.file_paths()
                } else {
                    let none: Vec<Vec<u8>> = Vec::new();
                    assert(files::uri::path_views(none@) =~= Seq::<Seq<u8>>::empty());
                    none
                };
                assert(files::uri::path_views(paths@).len() == paths@.len());
                if paths.len() == 0 {
                    Reaction::Record(captured)
                } else {
                    Reaction::Snapshot { captured, paths }
                }
            },
        }
    }

    /// How long the service may sleep: until the next lifetime runs out, the
    /// next reconnection attempt, or a minute, whichever comes first. A
    /// deadline already in the past means no sleep at all.
    pub fn next_wake(&self, now: Time, reconnect_at: Option<Time>) -> (sleep: Span)
        requires
            self.wf(),
        ensures
            sleep.nanos <= Span::of_secs(EXPIRY_FLOOR).nanos,
            reconnect_at matches Some(due) ==> sleep.nanos <= due.elapsed(now).nanos,
            forall|id: EntryId| #[trigger]
                self@.board.items.contains_key(id) && self@.board.items[id].expires_at is Some
                    ==> sleep.nanos <= (self@.board.items[id].expires_at->0).elapsed(now).nanos,
            sleep == Span::of_secs(EXPIRY_FLOOR) || (reconnect_at is Some && sleep
                == (reconnect_at->0).elapsed(now)) || (exists|id: EntryId| #[trigger]
                self@.board.items.contains_key(id) && self@.board.items[id].expires_at is Some
                    && sleep == (self@.board.items[id].expires_at->0).elapsed(now)),
    {
        let mut sleep = Span::from_secs(EXPIRY_FLOOR);
        match self.board.next_expiry() {
            Some(deadline) => {
                let left = deadline.since(now);
                if left.nanos < sleep.nanos {
                    sleep = left;
                }
            },
            None => {},
        }
        match reconnect_at {
            Some(due) => {
                let left = due.since(now);
                if left.nanos < sleep.nanos {
                    sleep = left;
                }
            },
            None => {},
        }
        sleep
    }
}

/// What picking an entry comes to.
pub open spec fn picked(
    before: ServiceView,
    copy: CopyView,
    id: EntryId,
    settings: Settings,
    now: Time,
    result: Result<(EntryId, Vec<Order>), ClipError>,
    after: ServiceView,
) -> bool {
    let event = before.board.pick_event(copy, id, settings.secret_ttl);
    match before.board.copy_refusal(event, settings.entry_cap()) {
        Some(error) => result == Err::<(EntryId, Vec<Order>), ClipError>(error) && after == before,
        None => {
            let said = before.board.say(event, !copy.secret, now);
            &&& result matches Ok((new, orders))
            &&& new == before.board.log.next_id()
            &&& codec::legible(event)
            &&& before.did((said.0, said.1 + before.board.pick_fetch(id)), orders@, after)
        },
    }
}

proof fn lemma_without_all_keeps(board: ClipState, ids: Seq<EntryId>)
    ensures
        board.without_all(ids).log.next_seq == board.log.next_seq,
    decreases ids.len(),
{
    if ids.len() > 0 {
        lemma_without_all_keeps(board, ids.drop_last());
    }
}

proof fn lemma_fold_keeps(board: ClipState, changes: Seq<Change>, now: Time)
    ensures
        board.fold(changes, now).0.log.next_seq == board.log.next_seq,
    decreases changes.len(),
{
    if changes.len() > 0 {
        lemma_fold_keeps(board, changes.drop_last(), now);
        let before = board.fold(changes.drop_last(), now).0;
        match changes.last() {
            Change::Added(entry) => {
                let stale = model::named_in_order(
                    before.items,
                    |item: ItemView| item.clock.rank() <= entry.clock.rank(),
                );
                lemma_without_all_keeps(
                    ClipState {
                        purged_through: before.purged_through.later(entry.clock),
                        ..before
                    },
                    stale,
                );
            },
            Change::Dropped(id) => {},
        }
    }
}

/// Writing an event takes one number.
proof fn lemma_next_seq(board: ClipState, event: EventView, now: Time)
    requires
        board.log.next_seq < u64::MAX,
    ensures
        board.say(event, true, now).0.log.next_seq == board.log.next_seq + 1,
{
    let (written, changes) = board.write(event, true, now);
    lemma_fold_keeps(written, changes, now);
}

/// Pasting an entry gives back what it was copied as: the best of its types, and
/// the bytes in it.
pub proof fn pasting_gives_back_what_was_copied(
    board: ClipState,
    needle: Option<Seq<char>>,
    id: EntryId,
    copy: CopyView,
    result: Result<(String, Vec<String>, Vec<u8>), ServiceError>,
)
    requires
        pasted(board, needle, None, result),
        meant(board, needle) == Ok::<EntryId, ClipError>(id),
        board.copied(id) == Some(copy),
        copy.reps.len() > 0,
    ensures
        result matches Ok((kind, alternates, bytes)) && kind@ == copy.reps[0].0 && bytes@
            == copy.reps[0].1,
{
    assert(asked_for(copy.reps, None, 0));
}

proof fn lemma_ordered(effects: Seq<EffectView>, connected: bool, dir: Seq<u8>, i: int, k: int)
    requires
        0 <= i < effects.len(),
        0 <= k < order_for(effects[i], connected, dir).len(),
    ensures
        orders_for(effects, connected, dir).contains(order_for(effects[i], connected, dir)[k]),
    decreases effects.len(),
{
    let rest = effects.drop_last();
    let before = orders_for(rest, connected, dir);
    let own = order_for(effects.last(), connected, dir);
    let all = orders_for(effects, connected, dir);
    if i < rest.len() {
        lemma_ordered(rest, connected, dir, i, k);
        let one = order_for(rest[i], connected, dir)[k];
        let n = choose|n: int| 0 <= n < before.len() && before[n] == one;
        assert(all[n] == one);
    } else {
        assert(all[before.len() + k] == own[k]);
    }
}

proof fn lemma_ordered_for(effects: Seq<EffectView>, connected: bool, dir: Seq<u8>, n: int)
    requires
        0 <= n < orders_for(effects, connected, dir).len(),
    ensures
        exists|i: int|
            0 <= i < effects.len() && order_for(#[trigger] effects[i], connected, dir).contains(
                orders_for(effects, connected, dir)[n],
            ),
    decreases effects.len(),
{
    if effects.len() > 0 {
        let rest = effects.drop_last();
        let before = orders_for(rest, connected, dir);
        let own = order_for(effects.last(), connected, dir);
        let all = orders_for(effects, connected, dir);
        if n < before.len() {
            lemma_ordered_for(rest, connected, dir, n);
            let i = choose|i: int|
                0 <= i < rest.len() && order_for(#[trigger] rest[i], connected, dir).contains(
                    before[n],
                );
            assert(effects[i] == rest[i]);
            assert(all[n] == before[n]);
        } else {
            assert(all[n] == own[n - before.len()]);
            assert(own.contains(all[n]));
            assert(effects[effects.len() - 1] == effects.last());
        }
    }
}

proof fn lemma_performed(
    effects: Seq<EffectView>,
    connected: bool,
    dir: Seq<u8>,
    board: ClipState,
    order: OrderView,
)
    requires
        effects.len() > 0,
    ensures
        orders_for(effects, connected, dir).contains(order) ==> performed(
            effects,
            connected,
            dir,
            board,
        ).contains(order),
        performed(effects, connected, dir, board).contains(order) && !(order is Sweep)
            && !(order is Persist) && !(order is Announce) && !(order is Wake) ==> orders_for(
            effects,
            connected,
            dir,
        ).contains(order),
{
    let first = orders_for(effects, connected, dir);
    let all = performed(effects, connected, dir, board);
    if first.contains(order) {
        let n = choose|n: int| 0 <= n < first.len() && first[n] == order;
        assert(all[n] == order);
    }
    if all.contains(order) {
        let n = choose|n: int| 0 <= n < all.len() && all[n] == order;
        if n < first.len() {
            assert(first[n] == order);
        }
    }
}

/// What the clipboard decides is done: an entry that may be kept is written to
/// the disk, one that goes is taken off it and its files are swept, a selection
/// is offered and taken off while there is a compositor, and files are fetched.
pub proof fn what_is_decided_is_ordered(
    effects: Seq<EffectView>,
    connected: bool,
    dir: Seq<u8>,
    board: ClipState,
    i: int,
)
    requires
        0 <= i < effects.len(),
    ensures
        ({
            let orders = performed(effects, connected, dir, board);
            &&& match effects[i] {
                EffectView::Store(entry) => entry.durable ==> orders.contains(
                    OrderView::Disk(
                        OpView::Store(
                            disk::file_of(dir, entry.id),
                            disk::encoding(
                                disk::WireView {
                                    id: entry.id,
                                    clock: entry.clock,
                                    payload: entry.bytes(),
                                },
                            ),
                        ),
                    ),
                ),
                EffectView::Forget(id) => orders.contains(
                    OrderView::Disk(OpView::Forget(disk::file_of(dir, id))),
                ) && orders.contains(OrderView::Sweep),
                EffectView::Apply(serves) => connected ==> orders.contains(
                    OrderView::Offer(serves),
                ),
                EffectView::ClearSelection => connected ==> orders.contains(OrderView::Clear),
                EffectView::Fetch(id) => orders.contains(OrderView::Fetch(id)),
            }
            &&& orders.len() >= 3
            &&& orders[orders.len() - 1] is Wake
            &&& orders[orders.len() - 2] == OrderView::Announce(board.log.have)
            &&& orders[orders.len() - 3] matches OrderView::Persist(persisted)
                && persisted.checkpoint.next_seq == board.log.next_seq
                && persisted.checkpoint.clock == board.log.clock && persisted.pause == board.pause
        }),
{
    let orders = performed(effects, connected, dir, board);
    let own = order_for(effects[i], connected, dir);
    if own.len() > 0 {
        lemma_ordered(effects, connected, dir, i, 0);
        lemma_performed(effects, connected, dir, board, own[0]);
    }
    if effects[i] is Forget {
        assert(forgets_any(effects));
        let first = orders_for(effects, connected, dir);
        assert(orders[first.len() as int] == OrderView::Sweep);
    }
}

/// Nothing is done that was not decided: what is offered was to be applied, the
/// clipboard is emptied and files are fetched only when that was decided,
/// nothing is swept unless an entry went, nothing reaches the disk but entries
/// that may, and a change that changed nothing asks for nothing.
pub proof fn nothing_is_ordered_that_was_not_decided(
    effects: Seq<EffectView>,
    connected: bool,
    dir: Seq<u8>,
    board: ClipState,
    order: OrderView,
)
    requires
        performed(effects, connected, dir, board).contains(order),
    ensures
        effects.len() > 0,
        match order {
            OrderView::Offer(serves) => connected && effects.contains(EffectView::Apply(serves)),
            OrderView::Clear => connected && effects.contains(EffectView::ClearSelection),
            OrderView::Fetch(id) => effects.contains(EffectView::Fetch(id)),
            OrderView::Sweep => exists|id: EntryId| #[trigger]
                effects.contains(EffectView::Forget(id)),
            OrderView::Disk(OpView::Forget(path)) => exists|id: EntryId| #[trigger]
                effects.contains(EffectView::Forget(id)) && path == disk::file_of(dir, id),
            OrderView::Disk(OpView::Store(path, bytes)) => exists|entry: Entry| #[trigger]
                effects.contains(EffectView::Store(entry)) && entry.durable && path
                    == disk::file_of(dir, entry.id),
            _ => true,
        },
{
    if order is Sweep {
        let all = performed(effects, connected, dir, board);
        let first = orders_for(effects, connected, dir);
        let n = choose|n: int| 0 <= n < all.len() && all[n] == order;
        if n < first.len() {
            lemma_ordered_for(effects, connected, dir, n);
            let i = choose|i: int|
                0 <= i < effects.len() && order_for(#[trigger] effects[i], connected, dir).contains(
                    first[n],
                );
            assert(first[n] == order);
            let own = order_for(effects[i], connected, dir);
            assert(!own.contains(order));
        }
        assert(forgets_any(effects));
        let i = choose|i: int| 0 <= i < effects.len() && (#[trigger] effects[i]) is Forget;
        assert(effects.contains(effects[i]));
        assert(effects.contains(EffectView::Forget(effects[i]->Forget_0)));
    } else if !(order is Persist) && !(order is Announce) && !(order is Wake) {
        lemma_performed(effects, connected, dir, board, order);
        let first = orders_for(effects, connected, dir);
        let n = choose|n: int| 0 <= n < first.len() && first[n] == order;
        lemma_ordered_for(effects, connected, dir, n);
        let i = choose|i: int|
            0 <= i < effects.len() && order_for(#[trigger] effects[i], connected, dir).contains(
                first[n],
            );
        let own = order_for(effects[i], connected, dir);
        assert(effects.contains(effects[i]));
        let k = choose|k: int| 0 <= k < own.len() && own[k] == order;
        assert(own[k] == order);
        match effects[i] {
            EffectView::Store(entry) => {
                assert(effects.contains(EffectView::Store(entry)));
            },
            EffectView::Forget(id) => {
                assert(effects.contains(EffectView::Forget(id)));
            },
            _ => {},
        }
    }
}

/// What was typed means an entry exactly when it is the only one whose label
/// begins with it; and when nothing was typed the selection is meant.
pub proof fn what_was_typed_means_one_entry(board: ClipState, needle: Seq<char>, id: EntryId)
    requires
        board.valid(),
    ensures
        typed(board, needle) == Ok::<EntryId, ClipError>(id) <==> {
            &&& board.items.contains_key(id)
            &&& needle.is_prefix_of(id.label_text())
            &&& forall|other: EntryId| #[trigger]
                board.items.contains_key(other) && needle.is_prefix_of(other.label_text())
                    ==> other == id
        },
        typed(board, needle) == Err::<EntryId, ClipError>(ClipError::NoMatch) <==> forall|
            other: EntryId,
        | #[trigger]
            board.items.contains_key(other) ==> !needle.is_prefix_of(other.label_text()),
        meant(board, Some(needle)) == typed(board, needle),
        board.selected() matches Some(selected) ==> meant(board, None) == Ok::<EntryId, ClipError>(
            selected,
        ),
        board.selected() is None ==> meant(board, None) == Err::<EntryId, ClipError>(
            ClipError::Empty,
        ),
{
    let ids = state::matches(board, needle);
    assert forall|other: EntryId| #[trigger]
        ids.contains(other) == (board.items.contains_key(other) && needle.is_prefix_of(
            other.label_text(),
        )) by {
        history::what_was_typed_matches(board, needle, Seq::empty(), other);
    }
    history::what_was_typed_matches(board, needle, Seq::empty(), id);
    if ids.len() == 1 {
        assert(ids.contains(ids[0]));
        assert forall|other: EntryId| #[trigger]
            board.items.contains_key(other) && needle.is_prefix_of(
                other.label_text(),
            ) implies other == ids[0] by {
            assert(ids.contains(other));
        }
        if board.items.contains_key(id) && needle.is_prefix_of(id.label_text()) {
            assert(ids.contains(id));
        }
        assert(board.items.contains_key(ids[0]));
    } else if ids.len() >= 2 {
        assert(ids.contains(ids[0]) && ids.contains(ids[1]));
        assert(ids[0] != ids[1]);
        assert(board.items.contains_key(ids[0]) && board.items.contains_key(ids[1]));
    } else {
        assert forall|other: EntryId| #[trigger] board.items.contains_key(
            other,
        ) implies !needle.is_prefix_of(other.label_text()) by {
            assert(!ids.contains(other));
        }
    }
}

/// Pasting a type of an entry gives the bytes it was copied with in that type,
/// the case of English letters aside; and a type it was not copied in is said
/// not to be there.
pub proof fn pasting_a_type_gives_its_bytes(
    board: ClipState,
    needle: Option<Seq<char>>,
    mime: Seq<char>,
    id: EntryId,
    copy: CopyView,
    i: int,
    result: Result<(String, Vec<String>, Vec<u8>), ServiceError>,
)
    requires
        pasted(board, needle, Some(mime), result),
        meant(board, needle) == Ok::<EntryId, ClipError>(id),
        board.copied(id) == Some(copy),
    ensures
        (0 <= i < copy.reps.len() && text::same_but_case(copy.reps[i].0, mime) && forall|j: int|
            0 <= j < i ==> !text::same_but_case((#[trigger] copy.reps[j]).0, mime)) ==> (
        result matches Ok((kind, alternates, bytes)) && kind@ == copy.reps[i].0 && bytes@
            == copy.reps[i].1 && alternates@.len() == copy.reps.len() - 1),
        (forall|j: int|
            0 <= j < copy.reps.len() ==> !text::same_but_case((#[trigger] copy.reps[j]).0, mime))
            ==> (result matches Err(ServiceError::NoSuchType { id: named, types: carried }) && named
            == id && carried@.len() == copy.reps.len()),
{
    if 0 <= i < copy.reps.len() && text::same_but_case(copy.reps[i].0, mime) && forall|j: int|
        0 <= j < i ==> !text::same_but_case((#[trigger] copy.reps[j]).0, mime) {
        assert(event::is_first_under(copy.reps, mime, i));
        assert(asked_for(copy.reps, Some(mime), i));
        if let Ok((kind, alternates, bytes)) = result {
            let k = choose|k: int|
                {
                    &&& #[trigger] asked_for(copy.reps, Some(mime), k)
                    &&& 0 <= k < copy.reps.len()
                    &&& kind@ == copy.reps[k].0
                    &&& bytes@ == copy.reps[k].1
                    &&& crate::clip::mime::owned_texts(alternates@) == types(copy.reps.remove(k))
                };
            if k < i {
                assert(!text::same_but_case(copy.reps[k].0, mime));
            } else if i < k {
                assert(!text::same_but_case(copy.reps[i].0, mime));
            }
            assert(crate::clip::mime::owned_texts(alternates@).len() == types(
                copy.reps.remove(k),
            ).len());
        }
    }
    if forall|j: int|
        0 <= j < copy.reps.len() ==> !text::same_but_case((#[trigger] copy.reps[j]).0, mime) {
        if let Err(ServiceError::NoSuchType { id: named, types: carried }) = result {
            assert(crate::clip::mime::owned_texts(carried@).len() == types(copy.reps).len());
        }
    }
}

/// The files whose contents go with a selection are those it names, all of them,
/// when files are shared and it is no secret; and none otherwise.
pub proof fn the_files_of_a_selection_go_with_it(captured: Captured, shares: bool, i: int)
    ensures
        !shares || captured.secret ==> spooled_paths(captured, shares).len() == 0,
        shares && !captured.secret && 0 <= i < captured.selection@.len() && text::same_but_case(
            captured.selection@[i].0,
            "text/uri-list"@,
        ) && (forall|j: int|
            0 <= j < i ==> !text::same_but_case(
                (#[trigger] captured.selection@[j]).0,
                "text/uri-list"@,
            )) ==> spooled_paths(captured, shares) == files::uri::listed_paths(
            captured.selection@[i].1,
        ),
        (forall|j: int|
            0 <= j < captured.selection@.len() ==> !text::same_but_case(
                (#[trigger] captured.selection@[j]).0,
                "text/uri-list"@,
            )) ==> spooled_paths(captured, shares).len() == 0,
{
    let reps = captured.selection@;
    if 0 <= i < reps.len() && text::same_but_case(reps[i].0, "text/uri-list"@) && forall|j: int|
        0 <= j < i ==> !text::same_but_case((#[trigger] reps[j]).0, "text/uri-list"@) {
        assert(event::is_first_under(reps, "text/uri-list"@, i));
        event::lemma_first_under(reps, "text/uri-list"@, i);
    }
    if forall|j: int|
        0 <= j < reps.len() ==> !text::same_but_case((#[trigger] reps[j]).0, "text/uri-list"@) {
        if exists|k: int| event::is_first_under(reps, "text/uri-list"@, k) {
            let k = choose|k: int| event::is_first_under(reps, "text/uri-list"@, k);
            assert(event::is_first_under(reps, "text/uri-list"@, k));
            assert(!text::same_but_case(reps[k].0, "text/uri-list"@));
        }
    }
}

/// A clipboard starts with nothing but what is known from before: who it
/// belongs to, how far it has counted, and what is paused; and it keeps as many
/// entries and bytes as was set, and no more than one fetch can bring.
pub proof fn a_clipboard_starts_blank(
    identity: EndpointId,
    settings: Settings,
    persisted: Persisted,
)
    ensures
        ({
            let board = blank(identity, settings, persisted);
            &&& board.log.origin == identity
            &&& board.log.entries.dom() == Set::<EntryId>::empty()
            &&& board.items.dom() == Set::<EntryId>::empty()
            &&& board.selected() is None
            &&& board.log.next_seq >= 1
            &&& persisted.checkpoint.next_seq >= 1 ==> board.log.next_seq
                == persisted.checkpoint.next_seq
            &&& board.log.clock == persisted.checkpoint.clock
            &&& board.pause == persisted.pause
            &&& 1 <= settings.history_limit <= 4096 ==> board.log.limits.entries
                == settings.history_limit
            &&& settings.history_limit > 4096 ==> board.log.limits.entries == 4096
            &&& settings.history_limit == 0 ==> board.log.limits.entries == 1
            &&& settings.history_budget <= usize::MAX ==> board.log.limits.bytes
                == settings.history_budget
            &&& board.log.limits.payload == 4 * 1024 * 1024
        }),
{
    let board = blank(identity, settings, persisted);
    assert(board.log.entries.dom() =~= Set::<EntryId>::empty());
    assert(board.items.dom() =~= Set::<EntryId>::empty());
    if exists|id: EntryId| board.is_selected(id) {
        let id = choose|id: EntryId| board.is_selected(id);
        assert(board.is_selected(id));
        assert(board.items.dom().contains(id));
    }
}


} // verus!
