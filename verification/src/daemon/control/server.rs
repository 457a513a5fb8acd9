//! The daemon's side of the control socket: what each request comes to.
//!
//! A request is answered at once where nothing has to be waited for. Where
//! something has to be, be it the network, the disk or a peer, the answer says
//! what, and a second function takes it from there.

use crate::clip::codec;
use crate::clip::event;
use crate::clip::event::{CopyView, EventView, Rep};
use crate::clip::history;
use crate::clip::model;
use crate::clip::model::{ClipError, ClipState, ItemView, Pause, Switch};
use crate::clip::preview;
use crate::clip::sharing;
use crate::clip::state::Item;
use crate::config::mesh;
use crate::config::mesh::{MeshError, MeshState, PeerView};
use crate::config::name;
use crate::config::name::validate_name;
use crate::config::Settings;
use crate::daemon::clip;
use crate::daemon::clip::{
    BackendState, Located, Order, Persisted, ServiceError, ServiceView,
};
use crate::daemon::control::protocol::{
    ClipboardStatus, FileInfo, HistoryEntry, PeerStatus, Request, Response, Status,
};
use crate::daemon::control::told;
use crate::daemon::pairing::{Pairing, PairingView};
use crate::daemon::topics::Topics;
use crate::daemon::store;
use crate::daemon::store::MeshStore;
use crate::encoding;
use crate::files;
use crate::files::walk::WalkError;
use crate::files::FileRef;
use crate::log::{EndpointId, EntryId, Hlc};
use crate::net::pair::{PairError, PairedPeer};
use crate::net::ticket;
use crate::net::ticket::{PairTicket, TicketError, TicketView};
use crate::text;
use crate::time::{Span, Time, NANOS_PER_MILLI};
use std::sync::Arc;
use vstd::prelude::*;

verus! {

/// Everything the requests are answered from.
pub struct Context {
    pub local: EndpointId,
    pub started: Time,
    pub version: String,
    pub topics: Topics,
    pub mesh: MeshStore,
    pub pairing: Pairing,
}

/// Everything the requests are answered from, for contracts.
#[verifier::ext_equal]
pub struct ContextView {
    pub local: EndpointId,
    pub started: Time,
    pub version: Seq<char>,
    pub clip: ServiceView,
    pub mesh: Map<EndpointId, PeerView>,
    pub pairing: PairingView,
}

impl View for Context {
    type V = ContextView;

    open spec fn view(&self) -> ContextView {
        ContextView {
            local: self.local,
            started: self.started,
            version: self.version@,
            clip: self.topics.clipboard@,
            mesh: self.mesh@,
            pairing: self.pairing@,
        }
    }
}

/// One entry of the history as it is told, for contracts.
#[verifier::ext_equal]
pub struct HistoryView {
    pub label: Seq<char>,
    pub preview: Seq<char>,
    pub mime: Seq<char>,
    pub size: usize,
    pub secret: bool,
    pub files: usize,
    pub origin: Seq<char>,
    pub age_secs: u64,
    pub expires_in_secs: Option<u64>,
    pub selected: bool,
}

impl View for HistoryEntry {
    type V = HistoryView;

    open spec fn view(&self) -> HistoryView {
        HistoryView {
            label: self.label@,
            preview: self.preview@,
            mime: self.mime@,
            size: self.size,
            secret: self.secret,
            files: self.files,
            origin: self.origin@,
            age_secs: self.age_secs,
            expires_in_secs: self.expires_in_secs,
            selected: self.selected,
        }
    }
}

/// When a reading of the mesh-wide clock claims to have been taken.
pub open spec fn taken_at(clock: Hlc) -> Time {
    Time { nanos: (clock.millis * NANOS_PER_MILLI) as u128 }
}

/// What a machine is called when the origin of an entry is told. A machine that
/// left the mesh keeps its entries in the history until they age out, and there
/// is no name left for it: its id is told.
pub open spec fn origin_name(
    origin: EndpointId,
    local: EndpointId,
    peers: Map<EndpointId, PeerView>,
) -> Seq<char> {
    if origin == local {
        "this machine"@
    } else if mesh::alive(peers, origin) {
        peers[origin].name->0
    } else {
        encoding::hex(origin.key.bytes())
    }
}

/// What is told of an entry, at some time.
pub open spec fn told_entry(
    item: ItemView,
    local: EndpointId,
    peers: Map<EndpointId, PeerView>,
    selected: Option<EntryId>,
    now: Time,
) -> HistoryView {
    HistoryView {
        label: item.id.label_text(),
        preview: item.preview,
        mime: item.mime,
        size: item.size,
        secret: item.secret,
        files: item.files.len() as usize,
        origin: origin_name(item.id.origin, local, peers),
        age_secs: now.elapsed(taken_at(item.clock)).whole_secs(),
        expires_in_secs: match item.expires_at {
            Some(at) => Some(at.elapsed(now).whole_secs()),
            None => None,
        },
        selected: selected == Some(item.id),
    }
}

/// Describes one entry, naming the machine it came from.
pub fn entry(
    item: &Item,
    state: &MeshState,
    local: EndpointId,
    selected: Option<EntryId>,
    now: Time,
) -> (told: HistoryEntry)
    requires
        state.wf(),
    ensures
        told@ == told_entry(item@, local, state@, selected, now),
{
    let origin = if item.id.origin == local {
        "this machine".to_owned()
    } else {
        match state.peer_name(&item.id.origin) {
            Some(name) => name.to_owned(),
            None => item.id.origin.text(),
        }
    };
    let is_selected: bool = match selected {
        Some(id) => id == item.id,
        None => false,
    };
    let expires_in_secs = match item.expires_at {
        Some(at) => Some(at.since(now).as_secs()),
        None => None,
    };
    assert(files::manifest(item.files@).len() == item.files@.len());
    HistoryEntry {
        label: item.id.label(),
        preview: item.preview.clone(),
        mime: item.mime.clone(),
        size: item.size,
        secret: item.secret,
        files: item.files.len(),
        origin,
        age_secs: now.since(item.clock.as_system_time()).as_secs(),
        expires_in_secs,
        selected: is_selected,
    }
}

/// Some entries as they are told, for contracts.
pub open spec fn history_views(list: Seq<HistoryEntry>) -> Seq<HistoryView> {
    list.map_values(|entry: HistoryEntry| entry@)
}

/// The history as it is told: newest first, and no more than were asked for.
pub open spec fn told_history(
    context: ContextView,
    limit: Option<usize>,
    now: Time,
    told: Seq<HistoryView>,
) -> bool {
    exists|items: Seq<Item>|
        {
            &&& #[trigger] clip::newest_first(items, context.clip.board)
            &&& told.len() == (if limit is Some && limit->0 < items.len() {
                limit->0 as nat
            } else {
                items.len()
            })
            &&& forall|i: int|
                0 <= i < told.len() ==> #[trigger] told[i] == told_entry(
                    items[i]@,
                    context.local,
                    context.mesh,
                    context.clip.board.selected(),
                    now,
                )
        }
}

/// What the daemon is doing, for contracts.
#[verifier::ext_equal]
pub struct StatusView {
    pub endpoint: EndpointId,
    pub uptime_secs: u64,
    pub version: Seq<char>,
    pub backend: Option<Seq<char>>,
    pub pause: Pause,
    pub entries: usize,
    pub selection: Option<HistoryView>,
    pub peers: Seq<PeerStatus>,
}

impl View for Status {
    type V = StatusView;

    open spec fn view(&self) -> StatusView {
        StatusView {
            endpoint: self.endpoint,
            uptime_secs: self.uptime_secs,
            version: self.version@,
            backend: match self.clipboard.backend {
                Some(reason) => Some(reason@),
                None => None,
            },
            pause: self.clipboard.pause,
            entries: self.clipboard.entries,
            selection: match self.clipboard.selection {
                Some(entry) => Some(entry@),
                None => None,
            },
            peers: self.peers@,
        }
    }
}

/// What the daemon is doing, at some time.
pub open spec fn told_status(context: ContextView, peers: Seq<PeerStatus>, now: Time) -> StatusView {
    let board = context.clip.board;
    StatusView {
        endpoint: context.local,
        uptime_secs: now.elapsed(context.started).whole_secs(),
        version: context.version,
        backend: match context.clip.down {
            Some(reason) => Some(told::printable(reason)),
            None => None,
        },
        pause: board.pause,
        entries: board.items.len() as usize,
        selection: match board.selected() {
            Some(id) => if board.items.contains_key(id) {
                Some(
                    told_entry(board.items[id], context.local, context.mesh, board.selected(), now),
                )
            } else {
                None
            },
            None => None,
        },
        peers,
    }
}

impl Context {
    /// Whether everything is in order.
    pub open spec fn wf(&self) -> bool {
        self.topics.clipboard.wf() && self.mesh.wf()
    }

    /// The history, resolved for display.
    pub fn history(&self, limit: Option<usize>, now: Time) -> (told: Vec<HistoryEntry>)
        requires
            self.wf(),
        ensures
            told_history(self@, limit, now, history_views(told@)),
    {
        let (items, selected) = self.topics.clipboard.history();
        let state = self.mesh.state();
        let n: usize = match limit {
            Some(limit) => if limit < items.len() {
                limit
            } else {
                items.len()
            },
            None => items.len(),
        };
        let mut told: Vec<HistoryEntry> = Vec::new();
        let mut i: usize = 0;
        while i < n
            invariant
                i <= n <= items@.len(),
                self.wf(),
                state.wf(),
                state@ == self@.mesh,
                selected == self@.clip.board.selected(),
                told@.len() == i,
                forall|j: int|
                    0 <= j < i ==> (#[trigger] told@[j])@ == told_entry(
                        items@[j]@,
                        self@.local,
                        self@.mesh,
                        selected,
                        now,
                    ),
            decreases n - i,
        {
            told.push(entry(&items[i], state, self.local, selected, now));
            i += 1;
        }
        proof {
            let views = history_views(told@);
            assert forall|j: int| 0 <= j < views.len() implies #[trigger] views[j] == told_entry(
                items@[j]@,
                self@.local,
                self@.mesh,
                self@.clip.board.selected(),
                now,
            ) by {
                assert(views[j] == told@[j]@);
            }
            assert(clip::newest_first(items@, self@.clip.board));
        }
        told
    }

    /// Snapshots the daemon for `yank status`, with where the connections are
    /// at.
    pub fn status(&self, peers: Vec<PeerStatus>, now: Time) -> (status: Status)
        requires
            self.wf(),
        ensures
            status@ == told_status(self@, peers@, now),
    {
        let (items, selected) = self.topics.clipboard.history();
        let state = self.mesh.state();
        let mut selection: Option<HistoryEntry> = None;
        let mut i: usize = 0;
        while i < items.len()
            invariant
                i <= items@.len(),
                self.wf(),
                state.wf(),
                state@ == self@.mesh,
                selected == self@.clip.board.selected(),
                clip::newest_first(items@, self@.clip.board),
                match selection {
                    Some(told) => selected is Some && self@.clip.board.items.contains_key(
                        selected->0,
                    ) && told@ == told_entry(
                        self@.clip.board.items[selected->0],
                        self@.local,
                        self@.mesh,
                        selected,
                        now,
                    ),
                    None => forall|j: int| 0 <= j < i ==> Some((#[trigger] items@[j]).id) != selected,
                },
            decreases items@.len() - i,
        {
            let is_selected: bool = match selected {
                Some(id) => id == items[i].id,
                None => false,
            };
            if selection.is_none() && is_selected {
                assert(self@.clip.board.items.contains_key(items@[i as int].id));
                selection = Some(entry(&items[i], state, self.local, selected, now));
            }
            i += 1;
        }
        proof {
            if selected is Some && self@.clip.board.items.contains_key(selected->0) {
                let k = choose|k: int|
                    0 <= k < items@.len() && (#[trigger] items@[k]).id == selected->0;
                assert(Some(items@[k].id) == selected);
            }
        }
        let backend = match self.topics.clipboard.backend_state() {
            BackendState::Running => None,
            BackendState::Down(reason) => Some(told::clean(reason.as_str())),
        };
        Status {
            endpoint: self.local,
            uptime_secs: now.since(self.started).as_secs(),
            version: self.version.clone(),
            clipboard: ClipboardStatus {
                backend,
                pause: self.topics.clipboard.pause(),
                entries: items.len(),
                selection,
            },
            peers,
        }
    }
}

/// What a request comes to.
pub enum Step {
    /// Carry out the orders, and answer.
    Reply { response: Response, orders: Vec<Order> },
    /// Save this as the mesh state; once it is saved, commit it, tell the peers
    /// and answer.
    Save { state: MeshState, response: Response },
    /// Carry out the orders, then write what is kept outside the log; once it is
    /// written, wake the service and answer. Answer that it failed, with
    /// [`failed`], when it could not be written.
    Keep { kept: Persisted, response: Response, orders: Vec<Order> },
    /// Wait until a relay is reached, and go on with [`Context::hosted`].
    Host { name: String },
    /// Redeem the ticket, and go on with [`Context::joined`].
    Join { ticket: PairTicket, name: String },
    /// Take the files at these paths into the spool, and go on with
    /// [`Context::spooled`].
    Spool { paths: Vec<Vec<u8>>, ttl: Option<Span> },
    /// Ask for the files of this entry and wait for them, and go on with
    /// [`Context::awaited`], which takes the entry and its files.
    Await { id: EntryId, files: Arc<Vec<FileRef>> },
}

/// The daemon's answer, for contracts.
pub enum ResponseView {
    Status(StatusView),
    PairTicket(Seq<char>),
    Paired { name: Seq<char>, endpoint: EndpointId },
    PeerRemoved(EndpointId),
    Wrote { label: Seq<char> },
    Contents { mime: Seq<char>, alternates: Seq<Seq<char>>, bytes: Seq<u8> },
    History(Seq<HistoryView>),
    Files { label: Seq<char>, tree: Option<Seq<char>>, files: Seq<(Seq<char>, u64)> },
    Cleared,
    Paused(Pause),
    Error(Seq<char>),
}

/// The files of an entry as they are told.
pub open spec fn file_infos(list: Seq<FileInfo>) -> Seq<(Seq<char>, u64)> {
    list.map_values(|file: FileInfo| (file.path@, file.size))
}

impl View for Response {
    type V = ResponseView;

    open spec fn view(&self) -> ResponseView {
        match *self {
            Response::Status(status) => ResponseView::Status(status@),
            Response::PairTicket(ticket) => ResponseView::PairTicket(ticket@),
            Response::Paired { name, endpoint } => ResponseView::Paired { name: name@, endpoint },
            Response::PeerRemoved(id) => ResponseView::PeerRemoved(id),
            Response::Wrote { label } => ResponseView::Wrote { label: label@ },
            Response::Contents { mime, alternates, bytes } => ResponseView::Contents {
                mime: mime@,
                alternates: crate::clip::mime::owned_texts(alternates@),
                bytes: bytes@,
            },
            Response::History(list) => ResponseView::History(history_views(list@)),
            Response::Files { label, tree, files } => ResponseView::Files {
                label: label@,
                tree: match tree {
                    Some(tree) => Some(tree@),
                    None => None,
                },
                files: file_infos(files@),
            },
            Response::Cleared => ResponseView::Cleared,
            Response::Paused(pause) => ResponseView::Paused(pause),
            Response::Error(message) => ResponseView::Error(message@),
        }
    }
}

impl Step {
    /// Whether this answers, with nothing to carry out.
    pub open spec fn answers(self, response: ResponseView) -> bool {
        self matches Step::Reply { response: given, orders } && given@ == response && orders@.len()
            == 0
    }

    /// Whether this answers that something failed.
    pub open spec fn fails(self, told: Seq<char>) -> bool {
        self.answers(ResponseView::Error(told::printable(told)))
    }
}

fn reply(response: Response) -> (step: Step)
    ensures
        step.answers(response@),
{
    Step::Reply { response, orders: Vec::new() }
}

/// Answers that something failed, saying why.
pub fn failed(message: &str) -> (step: Step)
    ensures
        step.fails(message@),
{
    reply(Response::Error(told::clean(message)))
}

/// Answers that the files of a selection are not shared, `place` being where
/// the file is that they are not shared for.
pub fn not_spooled(error: WalkError, place: &str) -> (step: Step)
    ensures
        step.fails(told::walk_text(error, place@)),
{
    let message = told::tell_walk(error, place);
    failed(message.as_str())
}

/// Answers that a ticket was not redeemed, `reason` being why the connection
/// closed, or what was said in place of what was due.
pub fn not_joined(error: &PairError, reason: &str) -> (step: Step)
    ensures
        step.fails(told::pairing_text(*error, reason@)),
{
    let message = told::tell_pairing(error, reason);
    failed(message.as_str())
}

/// What is asked of the mesh, and what was typed.
pub open spec fn removal(peers: Map<EndpointId, PeerView>, typed: Seq<char>) -> Result<
    (EndpointId, Map<EndpointId, PeerView>),
    Seq<char>,
> {
    let ids = mesh::meant(peers, typed);
    if ids.len() == 0 {
        Err(told::peer_text(MeshError::Unknown, typed))
    } else if ids.len() > 1 {
        Err(told::peer_text(MeshError::Ambiguous(ids.len() as usize), typed))
    } else {
        match store::without_peer(peers, ids[0]) {
            Ok(next) => Ok((ids[0], next)),
            Err(error) => Err(mesh::error_text(error)),
        }
    }
}

/// How long some seconds are, when some are given.
pub open spec fn ttl_of(secs: Option<u64>) -> Option<Span> {
    match secs {
        Some(secs) => Some(Span::of_secs(secs)),
        None => None,
    }
}

fn ttl(secs: Option<u64>) -> (ttl: Option<Span>)
    ensures
        ttl == ttl_of(secs),
{
    match secs {
        Some(secs) => Some(Span::from_secs(secs)),
        None => None,
    }
}

/// A text there may be.
pub open spec fn owned_view(t: Option<String>) -> Option<Seq<char>> {
    match t {
        Some(t) => Some(t@),
        None => None,
    }
}

/// What was typed, or nothing.
pub open spec fn typed_or_none(t: Option<String>) -> Seq<char> {
    match t {
        Some(t) => t@,
        None => ""@,
    }
}

fn borrow(t: &Option<String>) -> (lent: Option<&str>)
    ensures
        clip::text_view(lent) == owned_view(*t),
{
    match t {
        Some(t) => Some(t.as_str()),
        None => None,
    }
}

fn or_empty(t: &Option<String>) -> (lent: &str)
    ensures
        lent@ == typed_or_none(*t),
{
    match t {
        Some(t) => t.as_str(),
        None => "",
    }
}

/// Whether a copy is answered as it should be: with the name of the entry once
/// what it asks for is carried out, or with why it is refused.
pub open spec fn copied(
    before: ContextView,
    event: EventView,
    durable: bool,
    settings: Settings,
    now: Time,
    step: Step,
    after: ContextView,
) -> bool {
    match before.clip.board.copy_refusal(event, settings.entry_cap()) {
        Some(error) => step.fails(told::clip_text(error, settings.max_entry_size, ""@)) && after
            == before,
        None => {
            &&& step matches Step::Reply { response, orders }
            &&& response@ == (ResponseView::Wrote {
                label: before.clip.board.log.next_id().label_text(),
            })
            &&& codec::legible(event)
            &&& before.clip.did(before.clip.board.say(event, durable, now), orders@, after.clip)
            &&& after == (ContextView { clip: after.clip, ..before })
        },
    }
}

/// Answers a write to the clipboard.
fn written(result: Result<(EntryId, Vec<Order>), ClipError>, limit: u64, needle: &str) -> (step: Step)
    ensures
        match result {
            Ok((id, done)) => {
                &&& step matches Step::Reply { response, orders }
                &&& response@ == (ResponseView::Wrote { label: id.label_text() })
                &&& orders@ == done@
            },
            Err(error) => step.fails(told::clip_text(error, limit, needle@)),
        },
{
    match result {
        Ok((id, orders)) => Step::Reply { response: Response::Wrote { label: id.label() }, orders },
        Err(error) => {
            let message = told::tell_clip(error, limit, needle);
            failed(message.as_str())
        },
    }
}

/// Whether a pick is answered as it should be.
pub open spec fn picked(
    before: ContextView,
    needle: Seq<char>,
    settings: Settings,
    now: Time,
    step: Step,
    after: ContextView,
) -> bool {
    let board = before.clip.board;
    let limit = settings.max_entry_size;
    match clip::typed(board, needle) {
        Err(error) => step.fails(told::clip_text(error, limit, needle)) && after == before,
        Ok(id) => match board.copied(id) {
            None => step.fails(told::clip_text(board.body_error(id), limit, needle)) && after
                == before,
            Some(copy) => {
                let event = board.pick_event(copy, id, settings.secret_ttl);
                match board.copy_refusal(event, settings.entry_cap()) {
                    Some(error) => step.fails(told::clip_text(error, limit, needle)) && after
                        == before,
                    None => {
                        let said = board.say(event, !copy.secret, now);
                        &&& step matches Step::Reply { response, orders }
                        &&& response@ == (ResponseView::Wrote {
                            label: board.log.next_id().label_text(),
                        })
                        &&& codec::legible(event)
                        &&& before.clip.did(
                            (said.0, said.1 + board.pick_fetch(id)),
                            orders@,
                            after.clip,
                        )
                        &&& after == (ContextView { clip: after.clip, ..before })
                    },
                }
            },
        },
    }
}

/// Whether dropping an entry is answered as it should be.
pub open spec fn forgotten(
    before: ContextView,
    needle: Seq<char>,
    settings: Settings,
    now: Time,
    step: Step,
    after: ContextView,
) -> bool {
    let board = before.clip.board;
    let limit = settings.max_entry_size;
    match clip::typed(board, needle) {
        Err(error) => step.fails(told::clip_text(error, limit, needle)) && after == before,
        Ok(id) => if board.takes(EventView::Forget(id)) {
            &&& step matches Step::Reply { response, orders }
            &&& response@ == (ResponseView::Wrote { label: id.label_text() })
            &&& codec::writable(EventView::Forget(id)) ==> codec::legible(EventView::Forget(id))
            &&& before.clip.did(
                board.say(EventView::Forget(id), true, now),
                orders@,
                after.clip,
            )
            &&& after == (ContextView { clip: after.clip, ..before })
        } else {
            let error = ClipError::Log(crate::log::LogError::TooLarge(board.log.limits.payload));
            step.fails(told::clip_text(error, limit, needle)) && after == before
        },
    }
}

/// Whether clearing is answered as it should be.
pub open spec fn cleared(
    before: ContextView,
    history: bool,
    settings: Settings,
    now: Time,
    step: Step,
    after: ContextView,
) -> bool {
    match clip::clearing(before.clip.board, history, now) {
        Ok(change) => {
            &&& step matches Step::Reply { response, orders }
            &&& response@ == ResponseView::Cleared
            &&& codec::legible(EventView::Clear)
            &&& history ==> codec::legible(EventView::Purge)
            &&& before.clip.did(change, orders@, after.clip)
            &&& after == (ContextView { clip: after.clip, ..before })
        },
        Err((board, error)) => {
            &&& step.fails(told::clip_text(error, settings.max_entry_size, ""@))
            &&& after == (ContextView { clip: ServiceView { board, ..before.clip }, ..before })
        },
    }
}

/// Whether pausing is answered as it should be: only once the switches are
/// written down, since a pause that does not outlast the daemon is none.
pub open spec fn paused(
    before: ContextView,
    capture: Option<Switch>,
    apply: Option<Switch>,
    now: Time,
    step: Step,
    after: ContextView,
) -> bool {
    let change = before.clip.board.switched(capture, apply).reconcile(now);
    &&& step matches Step::Keep { kept, response, orders }
    &&& kept == clip::persisted_of(change.0)
    &&& response@ == ResponseView::Paused(change.0.pause)
    &&& clip::order_views(orders@) == clip::performed(
        change.1,
        before.clip.connected,
        before.clip.dir,
        change.0,
    )
    &&& after == (ContextView {
        clip: ServiceView { board: change.0, ..before.clip },
        ..before
    })
}

/// Whether pasting is answered as it should be.
pub open spec fn contents(
    context: ContextView,
    needle: Option<String>,
    mime: Option<String>,
    limit: u64,
    step: Step,
) -> bool {
    exists|result: Result<(String, Vec<String>, Vec<u8>), ServiceError>|
        {
            &&& #[trigger] clip::pasted(
                context.clip.board,
                owned_view(needle),
                owned_view(mime),
                result,
            )
            &&& match result {
                Ok((kind, alternates, bytes)) => step.answers(
                    ResponseView::Contents {
                        mime: kind@,
                        alternates: crate::clip::mime::owned_texts(alternates@),
                        bytes: bytes@,
                    },
                ),
                Err(error) => step.fails(
                    told::failure_text(
                        error@,
                        limit,
                        typed_or_none(needle),
                        typed_or_none(mime),
                    ),
                ),
            }
        }
}

/// The files of an entry as they are told.
pub open spec fn told_files(list: Seq<files::FileName>) -> Seq<(Seq<char>, u64)> {
    list.map_values(|file: files::FileName| (file.path, file.size))
}

/// What is told of the files of an entry: where they are when they are here.
pub open spec fn told_place(
    board: ClipState,
    id: EntryId,
    list: Seq<files::FileName>,
) -> ResponseView {
    ResponseView::Files {
        label: id.label_text(),
        tree: if board.ready.contains_key(id) {
            Some(preview::lossy_text(board.ready[id]))
        } else {
            None
        },
        files: told_files(list),
    }
}

/// Whether a question for the files of an entry is answered as it should be:
/// with where they are when they are here, and by waiting for them otherwise.
pub open spec fn located(
    context: ContextView,
    needle: Option<String>,
    limit: u64,
    step: Step,
) -> bool {
    let board = context.clip.board;
    match clip::meant(board, owned_view(needle)) {
        Err(error) => step.fails(told::clip_text(error, limit, typed_or_none(needle))),
        Ok(id) => {
            let list = board.items[id].files;
            if list.len() == 0 {
                step.fails(told::entry_text(id, " names no file"@))
            } else if board.is_ours(id) {
                step.fails(
                    told::entry_text(id, " was copied here; its files are where they always were"@),
                )
            } else if board.ready.contains_key(id) {
                step.answers(told_place(board, id, list))
            } else {
                step matches Step::Await { id: asked, files } && asked == id && files::manifest(
                    files@,
                ) == list
            }
        },
    }
}

/// Some paths, as the bytes the file system has them in.
pub open spec fn path_bytes(paths: Seq<String>) -> Seq<Seq<u8>> {
    paths.map_values(|path: String| vstd::utf8::encode_utf8(path@))
}

fn paths_of(paths: &Vec<String>) -> (list: Vec<Vec<u8>>)
    ensures
        files::uri::path_views(list@) == path_bytes(paths@),
{
    let ghost all = path_bytes(paths@);
    let mut list: Vec<Vec<u8>> = Vec::new();
    let mut i: usize = 0;
    assert(files::uri::path_views(list@) =~= all.take(0));
    while i < paths.len()
        invariant
            i <= paths.len(),
            all == path_bytes(paths@),
            files::uri::path_views(list@) == all.take(i as int),
        decreases paths.len() - i,
    {
        let ghost before = files::uri::path_views(list@);
        let path = vstd::slice::slice_to_vec(paths[i].as_str().as_bytes());
        list.push(path);
        assert(files::uri::path_views(list@) =~= before.push(path@));
        i += 1;
        assert(files::uri::path_views(list@) =~= all.take(i as int));
    }
    assert(all.take(i as int) =~= all);
    list
}

fn infos(list: &Vec<FileRef>) -> (told: Vec<FileInfo>)
    ensures
        file_infos(told@) == told_files(files::manifest(list@)),
{
    let ghost all = told_files(files::manifest(list@));
    let mut told: Vec<FileInfo> = Vec::new();
    let mut i: usize = 0;
    assert(file_infos(told@) =~= all.take(0));
    while i < list.len()
        invariant
            i <= list.len(),
            all == told_files(files::manifest(list@)),
            file_infos(told@) == all.take(i as int),
        decreases list.len() - i,
    {
        let ghost before = file_infos(told@);
        let info = FileInfo { path: list[i].path.clone(), size: list[i].size };
        told.push(info);
        assert(file_infos(told@) =~= before.push((info.path@, info.size)));
        assert(files::manifest(list@)[i as int] == list@[i as int]@);
        i += 1;
        assert(file_infos(told@) =~= all.take(i as int));
    }
    assert(all.take(i as int) =~= all);
    told
}

/// Whether hosting is answered as it should be: any outstanding ticket is
/// revoked before anything is waited for.
pub open spec fn hosting(
    before: ContextView,
    name: Seq<char>,
    step: Step,
    after: ContextView,
) -> bool {
    match name::name_refusal(name) {
        Some(error) => step.fails(mesh::error_text(MeshError::Name(error))) && after == before,
        None => {
            &&& step matches Step::Host { name: kept }
            &&& kept@ == name
            &&& after == (ContextView {
                pairing: PairingView { issued: None, ..before.pairing },
                ..before
            })
        },
    }
}

/// Whether joining is answered as it should be.
pub open spec fn joining(name: Seq<char>, typed: Seq<char>, step: Step) -> bool {
    match name::name_refusal(name) {
        Some(error) => step.fails(mesh::error_text(MeshError::Name(error))),
        None => exists|result: Result<PairTicket, TicketError>|
            {
                &&& #[trigger] parsed(typed, result)
                &&& match result {
                    Ok(ticket) => step matches Step::Join { ticket: kept, name: ours } && kept
                        == ticket && ours@ == name,
                    Err(error) => step.fails(told::ticket_text(error)),
                }
            },
    }
}

/// Whether this is what reading a ticket gives.
pub open spec fn parsed(typed: Seq<char>, result: Result<PairTicket, TicketError>) -> bool {
    ||| ticket::reads(typed, ticket::read_as(result))
    ||| vstd::utf8::encode_utf8(ticket::encoded_part(typed)->0).len() > usize::MAX / 8
        && ticket::read_as(result) == Err::<TicketView, TicketError>(TicketError::Invalid)
}

/// Whether removing a machine is answered as it should be.
pub open spec fn removing(before: ContextView, typed: Seq<char>, step: Step) -> bool {
    match removal(before.mesh, typed) {
        Err(message) => step.fails(message),
        Ok((id, next)) => if next == before.mesh {
            step.answers(ResponseView::PeerRemoved(id))
        } else {
            &&& step matches Step::Save { state, response }
            &&& state.wf()
            &&& state@ == next
            &&& response@ == ResponseView::PeerRemoved(id)
        },
    }
}

/// Whether a request is answered as it should be.
pub open spec fn answered(
    before: ContextView,
    settings: Settings,
    request: Request,
    peers: Seq<PeerStatus>,
    now: Time,
    step: Step,
    after: ContextView,
) -> bool {
    match request {
        Request::Status => step.answers(ResponseView::Status(told_status(before, peers, now)))
            && after == before,
        Request::PairHost { name } => hosting(before, name@, step, after),
        Request::PairJoin { ticket, name } => joining(name@, ticket@, step) && after == before,
        Request::RemovePeer { peer } => removing(before, peer@, step) && after == before,
        Request::Copy { mime, bytes, secret, ttl_secs } => copied(
            before,
            model::copy_event(
                seq![(mime@, bytes@)],
                Seq::empty(),
                secret,
                ttl_of(ttl_secs),
                settings.secret_ttl,
            ),
            !secret,
            settings,
            now,
            step,
            after,
        ),
        Request::Paste { entry, mime } => contents(
            before,
            entry,
            mime,
            settings.max_entry_size,
            step,
        ) && after == before,
        Request::CopyFiles { paths, ttl_secs } => {
            &&& after == before
            &&& if settings.files {
                &&& step matches Step::Spool { paths: list, ttl }
                &&& files::uri::path_views(list@) == path_bytes(paths@)
                &&& ttl == ttl_of(ttl_secs)
            } else {
                step.fails("sharing files is turned off in config.toml"@)
            }
        },
        Request::Files { entry } => located(before, entry, settings.max_entry_size, step)
            && after == before,
        Request::History { limit } => {
            &&& after == before
            &&& step matches Step::Reply { response, orders }
            &&& orders@.len() == 0
            &&& response matches Response::History(list)
            &&& told_history(before, limit, now, history_views(list@))
        },
        Request::Pick { entry } => picked(before, entry@, settings, now, step, after),
        Request::Forget { entry } => forgotten(before, entry@, settings, now, step, after),
        Request::Clear { history } => cleared(before, history, settings, now, step, after),
        Request::SetPause { capture, apply } => paused(before, capture, apply, now, step, after),
    }
}

impl Context {
    /// The settings of the daemon.
    pub open spec fn configured(&self) -> Settings {
        self.topics.clipboard.configured()
    }

    /// Says what one request comes to, with where the connections are at.
    pub fn answer(&mut self, request: Request, peers: Vec<PeerStatus>, now: Time) -> (step: Step)
        requires
            old(self).wf(),
            old(self)@.clip.board.log.next_seq < u64::MAX - 1,
        ensures
            final(self).wf(),
            final(self).configured() == old(self).configured(),
            answered(
                old(self)@,
                old(self).configured(),
                request,
                peers@,
                now,
                step,
                final(self)@,
            ),
    {
        match request {
            Request::Status => reply(Response::Status(Box::new(self.status(peers, now)))),
            Request::PairHost { name } => self.host(name),
            Request::PairJoin { ticket, name } => self.join(ticket.as_str(), name),
            Request::RemovePeer { peer } => self.remove(peer.as_str()),
            Request::Copy { mime, bytes, secret, ttl_secs } => {
                let limit: u64 = self.topics.clipboard.entry_limit();
                let rep = Rep { mime, bytes };
                let result = self.topics.clipboard.copy(rep, secret, ttl(ttl_secs), now);
                written(result, limit, "")
            },
            Request::Paste { entry, mime } => self.paste(&entry, &mime),
            Request::CopyFiles { paths, ttl_secs } => match self.topics.clipboard.shares_files() {
                Ok(_) => Step::Spool { paths: paths_of(&paths), ttl: ttl(ttl_secs) },
                Err(_) => failed("sharing files is turned off in config.toml"),
            },
            Request::Files { entry } => self.files(&entry),
            Request::History { limit } => {
                let list = self.history(limit, now);
                Step::Reply { response: Response::History(list), orders: Vec::new() }
            },
            Request::Pick { entry } => {
                let limit: u64 = self.topics.clipboard.entry_limit();
                let result = self.topics.clipboard.pick(entry.as_str(), now);
                written(result, limit, entry.as_str())
            },
            Request::Forget { entry } => {
                let limit: u64 = self.topics.clipboard.entry_limit();
                let result = self.topics.clipboard.forget(entry.as_str(), now);
                written(result, limit, entry.as_str())
            },
            Request::Clear { history } => {
                let limit: u64 = self.topics.clipboard.entry_limit();
                match self.topics.clipboard.clear(history, now) {
                    Ok(orders) => Step::Reply { response: Response::Cleared, orders },
                    Err(error) => {
                        let message = told::tell_clip(error, limit, "");
                        failed(message.as_str())
                    },
                }
            },
            Request::SetPause { capture, apply } => {
                let (pause, orders) = self.topics.clipboard.set_pause(capture, apply, now);
                let kept = self.topics.clipboard.persisted();
                Step::Keep { kept, response: Response::Paused(pause), orders }
            },
        }
    }

    /// Starts hosting a pairing.
    fn host(&mut self, name: String) -> (step: Step)
        requires
            old(self).wf(),
        ensures
            final(self).wf(),
            final(self).configured() == old(self).configured(),
            hosting(old(self)@, name@, step, final(self)@),
    {
        match validate_name(name.as_str()) {
            Ok(_) => {
                self.pairing.revoke();
                Step::Host { name }
            },
            Err(error) => {
                let message = MeshError::Name(error).text();
                failed(message.as_str())
            },
        }
    }

    /// Starts redeeming a ticket.
    fn join(&self, typed: &str, name: String) -> (step: Step)
        ensures
            joining(name@, typed@, step),
    {
        match validate_name(name.as_str()) {
            Ok(_) => {},
            Err(error) => {
                let message = MeshError::Name(error).text();
                return failed(message.as_str());
            },
        }
        let result = PairTicket::parse(typed);
        assert(parsed(typed@, result));
        match result {
            Ok(ticket) => Step::Join { ticket, name },
            Err(error) => failed(told::tell_ticket(error)),
        }
    }

    /// Removes a machine from the mesh.
    fn remove(&self, typed: &str) -> (step: Step)
        requires
            self.wf(),
        ensures
            removing(self@, typed@, step),
    {
        let id = match self.mesh.state().resolve_peer(typed) {
            Ok(id) => id,
            Err(error) => {
                let message = told::tell_peer(error, typed);
                return failed(message.as_str());
            },
        };
        match self.mesh.remove(&id) {
            Ok(Some(state)) => Step::Save { state, response: Response::PeerRemoved(id) },
            Ok(None) => reply(Response::PeerRemoved(id)),
            Err(error) => {
                let message = error.text();
                failed(message.as_str())
            },
        }
    }

    /// Reads an entry.
    fn paste(&self, needle: &Option<String>, mime: &Option<String>) -> (step: Step)
        requires
            self.wf(),
        ensures
            contents(self@, *needle, *mime, self.configured().max_entry_size, step),
    {
        let result = self.topics.clipboard.paste(borrow(needle), borrow(mime));
        assert(clip::pasted(self@.clip.board, owned_view(*needle), owned_view(*mime), result));
        match result {
            Ok((kind, alternates, bytes)) => reply(
                Response::Contents { mime: kind, alternates, bytes },
            ),
            Err(error) => {
                let message = told::tell_failure(
                    &error,
                    self.topics.clipboard.entry_limit(),
                    or_empty(needle),
                    or_empty(mime),
                );
                failed(message.as_str())
            },
        }
    }

    /// Where an entry's files are.
    fn files(&self, needle: &Option<String>) -> (step: Step)
        requires
            self.wf(),
        ensures
            located(self@, *needle, self.configured().max_entry_size, step),
    {
        match self.topics.clipboard.locate(borrow(needle)) {
            Ok(Located { id, files, tree }) => match tree {
                Some(tree) => reply(
                    Response::Files {
                        label: id.label(),
                        tree: Some(preview::from_utf8_lossy(tree.as_slice())),
                        files: infos(&files),
                    },
                ),
                None => Step::Await { id, files },
            },
            Err(error) => {
                let message = told::tell_failure(
                    &error,
                    self.topics.clipboard.entry_limit(),
                    or_empty(needle),
                    "",
                );
                failed(message.as_str())
            },
        }
    }

    /// Issues a ticket for a host that can be reached at an encoded address, and
    /// answers with it.
    pub fn hosted(&mut self, addr: &[u8], name: String, now: Time) -> (step: Step)
        requires
            old(self).wf(),
        ensures
            final(self).wf(),
            final(self).configured() == old(self).configured(),
            (exists|issued: PairTicket|
                {
                    &&& #[trigger] issued@.valid()
                    &&& issued@.addr == addr@
                    &&& step.answers(ResponseView::PairTicket(issued@.text()))
                    &&& final(self)@ == (ContextView {
                        pairing: PairingView {
                            issued: Some(
                                crate::daemon::pairing::IssuedView {
                                    ticket: issued@,
                                    expires: now.later(
                                        Span::of_secs(crate::daemon::pairing::PAIR_TICKET_SECS),
                                    ),
                                    local_name: name@,
                                },
                            ),
                            ..old(self)@.pairing
                        },
                        ..old(self)@
                    })
                }) || (step.fails("cannot issue a ticket for this address"@) && final(self)@
                == old(self)@ && exists|secret: ticket::PairSecret|
                !#[trigger] ticket::leads(addr@, secret.bytes@)),
    {
        match PairTicket::generate(addr) {
            Some(ticket) => {
                let t = ticket.text();
                self.pairing.issue(&ticket, name, now);
                let step = reply(Response::PairTicket(t));
                assert(ticket@.valid());
                step
            },
            None => failed("cannot issue a ticket for this address"),
        }
    }

    /// Registers the machine whose ticket was redeemed, and answers with it.
    pub fn joined(&self, peer: PairedPeer) -> (step: Step)
        requires
            self.wf(),
        ensures
            match store::with_paired(self@.mesh, peer.name@, peer.endpoint) {
                Err(error) => step.fails(mesh::error_text(error)),
                Ok(next) => if next == self@.mesh {
                    step.answers(
                        ResponseView::Paired { name: peer.name@, endpoint: peer.endpoint },
                    )
                } else {
                    &&& step matches Step::Save { state, response }
                    &&& state.wf()
                    &&& state@ == next
                    &&& response@ == (ResponseView::Paired {
                        name: peer.name@,
                        endpoint: peer.endpoint,
                    })
                },
            },
    {
        let proposal = self.mesh.add_paired(&peer);
        let response = Response::Paired { name: peer.name, endpoint: peer.endpoint };
        match proposal {
            Ok(Some(state)) => Step::Save { state, response },
            Ok(None) => reply(response),
            Err(error) => {
                let message = error.text();
                failed(message.as_str())
            },
        }
    }

    /// Copies files once they are spooled, and answers with the entry.
    pub fn spooled(
        &mut self,
        paths: &[Vec<u8>],
        list: Vec<FileRef>,
        ttl: Option<Span>,
        now: Time,
    ) -> (step: Step)
        requires
            old(self).wf(),
            old(self)@.clip.board.log.next_seq < u64::MAX,
        ensures
            final(self).wf(),
            final(self).configured() == old(self).configured(),
            copied(
                old(self)@,
                model::copy_event(
                    event::files_selection(files::uri::path_views(paths@)),
                    files::manifest(list@),
                    false,
                    ttl,
                    old(self).configured().secret_ttl,
                ),
                true,
                old(self).configured(),
                now,
                step,
                final(self)@,
            ),
    {
        let limit: u64 = self.topics.clipboard.entry_limit();
        let result = self.topics.clipboard.copy_files(paths, list, ttl, now);
        written(result, limit, "")
    }

    /// Answers a question for the files of an entry once they have arrived, or
    /// the time for that is up. What it names was settled when it was asked, and
    /// so were the files: whatever was copied or dropped meanwhile, the answer is
    /// about that entry.
    pub fn awaited(&self, id: EntryId, list: &Vec<FileRef>) -> (step: Step)
        requires
            self.wf(),
        ensures
            step.answers(told_place(self@.clip.board, id, files::manifest(list@))),
    {
        let tree = match self.topics.clipboard.tree(id) {
            Some(tree) => Some(preview::from_utf8_lossy(tree.as_slice())),
            None => None,
        };
        reply(Response::Files { label: id.label(), tree, files: infos(list) })
    }
}

/// A request that only asks changes nothing.
pub proof fn asking_changes_nothing(
    before: ContextView,
    settings: Settings,
    request: Request,
    peers: Seq<PeerStatus>,
    now: Time,
    step: Step,
    after: ContextView,
)
    requires
        answered(before, settings, request, peers, now, step, after),
        request is Status || request is Paste || request is History || request is Files,
    ensures
        after == before,
{
}

/// Whatever fails, what is handed back is safe to print.
pub proof fn what_fails_is_safe_to_print(told: Seq<char>, i: int)
    requires
        0 <= i < told::printable(told).len(),
    ensures
        told::printable(told).len() <= name::MAX_SHOWN_LEN,
        !crate::text::control(told::printable(told)[i]),
{
    name::what_is_shown_is_safe(name::bounded(told), i);
}

/// An entry is told of as what it is: its label, its type and its size, how many
/// files it names, how many seconds ago it was copied, how many are left of it,
/// who copied it, and whether it is the selection.
pub proof fn an_entry_is_told_of_as_it_is(
    item: ItemView,
    local: EndpointId,
    peers: Map<EndpointId, PeerView>,
    selected: Option<EntryId>,
    now: Time,
)
    requires
        item.clock.millis * 1_000_000 <= now.nanos,
        now.nanos / 1_000_000_000 <= u64::MAX,
        item.expires_at matches Some(end) ==> now.nanos <= end.nanos && end.nanos / 1_000_000_000
            <= u64::MAX,
        item.files.len() <= usize::MAX,
    ensures
        ({
            let told = told_entry(item, local, peers, selected, now);
            let origin = item.id.origin;
            &&& told.label == item.id.label_text()
            &&& told.preview == item.preview
            &&& told.mime == item.mime
            &&& told.size == item.size
            &&& told.secret == item.secret
            &&& told.files == item.files.len()
            &&& told.age_secs == (now.nanos - item.clock.millis * 1_000_000) / 1_000_000_000
            &&& item.expires_at matches Some(end) ==> (told.expires_in_secs matches Some(left)
                && left == (end.nanos - now.nanos) / 1_000_000_000)
            &&& item.expires_at is None ==> told.expires_in_secs is None
            &&& told.selected <==> selected == Some(item.id)
            &&& origin == local ==> told.origin == "this machine"@
            &&& origin != local && peers.contains_key(origin) && peers[origin].name is Some
                ==> Some(told.origin) == peers[origin].name
            &&& origin != local && !(peers.contains_key(origin) && peers[origin].name is Some)
                ==> told.origin == encoding::hex(origin.key.bytes())
        }),
{
}

/// The history is told whole, unless fewer entries were asked for: every entry
/// of it, each as what it is, and none before one that was copied later.
pub proof fn the_history_is_told(
    context: ContextView,
    limit: Option<usize>,
    now: Time,
    told: Seq<HistoryView>,
    id: EntryId,
)
    requires
        told_history(context, limit, now, told),
    ensures
        limit is None ==> told.len() == context.clip.board.items.len(),
        limit matches Some(n) ==> told.len() == (if n < context.clip.board.items.len() {
            n as nat
        } else {
            context.clip.board.items.len()
        }),
        context.clip.board.items.contains_key(id) && told.len()
            == context.clip.board.items.len() ==> told.contains(
            told_entry(
                context.clip.board.items[id],
                context.local,
                context.mesh,
                context.clip.board.selected(),
                now,
            ),
        ),
        forall|i: int, j: int|
            0 <= i < j < told.len() ==> (#[trigger] told[i]).age_secs <= (
            #[trigger] told[j]).age_secs,
{
    let board = context.clip.board;
    let items = choose|items: Seq<Item>|
        {
            &&& #[trigger] clip::newest_first(items, board)
            &&& told.len() == (if limit is Some && limit->0 < items.len() {
                limit->0 as nat
            } else {
                items.len()
            })
            &&& forall|i: int|
                0 <= i < told.len() ==> #[trigger] told[i] == told_entry(
                    items[i]@,
                    context.local,
                    context.mesh,
                    board.selected(),
                    now,
                )
        };
    assert forall|i: int, j: int| 0 <= i < j < told.len() implies (#[trigger] told[i]).age_secs <= (
    #[trigger] told[j]).age_secs by {
        history::the_history_is_newest_first(items[i]@, items[j]@);
        assert(items[j]@.clock.millis <= items[i]@.clock.millis);
    }
    if board.items.contains_key(id) && told.len() == board.items.len() {
        let i = choose|i: int| 0 <= i < items.len() && (#[trigger] items[i]).id == id;
        assert(told[i] == told_entry(
            items[i]@,
            context.local,
            context.mesh,
            board.selected(),
            now,
        ));
    }
}

/// What is asked to be copied is copied: the bytes under their type, as a secret
/// or not, for as long as was asked; and the answer names the entry.
pub proof fn what_is_asked_to_be_copied_is(
    before: ContextView,
    settings: Settings,
    mime: String,
    bytes: Vec<u8>,
    secret: bool,
    ttl_secs: Option<u64>,
    peers: Seq<PeerStatus>,
    now: Time,
    step: Step,
    after: ContextView,
)
    requires
        answered(
            before,
            settings,
            Request::Copy { mime, bytes, secret, ttl_secs },
            peers,
            now,
            step,
            after,
        ),
        before.clip.board.valid(),
    ensures
        ({
            let board = before.clip.board;
            let id = board.log.next_id();
            let copy = CopyView {
                reps: seq![(mime@, bytes@)],
                secret,
                ttl: match ttl_secs {
                    Some(secs) => Some(
                        if secs <= u32::MAX {
                            secs as u32
                        } else {
                            u32::MAX
                        },
                    ),
                    None => if secret {
                        Some(sharing::seconds(settings.secret_ttl))
                    } else {
                        None
                    },
                },
                files: Seq::empty(),
            };
            let taken = 0 < bytes@.len() <= settings.entry_cap() && board.takes(
                EventView::Copy(copy),
            );
            &&& !taken ==> after == before
            &&& taken ==> (step matches Step::Reply { response, orders } && response@
                == (ResponseView::Wrote { label: id.label_text() }))
            &&& taken && after.clip.board.log.entries.contains_key(id) ==> after.clip.board.copied(
                id,
            ) == Some(copy) && after.clip.board.log.entries[id].durable == !secret
            &&& after.mesh == before.mesh
            &&& after.pairing == before.pairing
        }),
{
    let board = before.clip.board;
    let reps = seq![(mime@, bytes@)];
    let event = model::copy_event(
        reps,
        Seq::empty(),
        secret,
        ttl_of(ttl_secs),
        settings.secret_ttl,
    );
    assert(reps.drop_last() =~= Seq::empty());
    assert(event::reps_weight(reps.drop_last()) == 0);
    assert(event::reps_weight(reps) == bytes@.len());
    files::manifest::a_manifest_of_proper_paths_is_taken(Seq::empty());
    if let EventView::Copy(copy) = event {
        if board.copy_refusal(event, settings.entry_cap()) is None {
            let id = board.log.next_id();
            if after.clip.board.log.entries.contains_key(id) {
                sharing::lemma_says(board, copy, !secret, now, after.clip.board);
                sharing::lemma_written_durable(board, copy, !secret, now, after.clip.board);
            }
        }
    }
}

/// Pausing changes the directions that were named, and nothing else; that is
/// what is answered, and what is kept for after a restart.
pub proof fn what_is_asked_to_be_paused_is(
    before: ContextView,
    settings: Settings,
    capture: Option<Switch>,
    apply: Option<Switch>,
    peers: Seq<PeerStatus>,
    now: Time,
    step: Step,
    after: ContextView,
)
    requires
        answered(
            before,
            settings,
            Request::SetPause { capture, apply },
            peers,
            now,
            step,
            after,
        ),
    ensures
        ({
            let pause = after.clip.board.pause;
            &&& capture matches Some(switch) ==> pause.capture == switch
            &&& capture is None ==> pause.capture == before.clip.board.pause.capture
            &&& apply matches Some(switch) ==> pause.apply == switch
            &&& apply is None ==> pause.apply == before.clip.board.pause.apply
            &&& step matches Step::Keep { kept, response, orders } && kept.pause == pause
                && response@ == ResponseView::Paused(pause)
            &&& after.clip.board.items == before.clip.board.items
            &&& after.clip.board.log == before.clip.board.log
            &&& after.mesh == before.mesh
            &&& after.pairing == before.pairing
        }),
{
}

/// What is asked to be forgotten goes, when what was typed means one entry, and
/// every other entry stays; and when it does not, everything does.
pub proof fn what_is_asked_to_be_forgotten_goes(
    before: ContextView,
    settings: Settings,
    entry: String,
    peers: Seq<PeerStatus>,
    now: Time,
    step: Step,
    after: ContextView,
    id: EntryId,
)
    requires
        answered(before, settings, Request::Forget { entry }, peers, now, step, after),
        before.clip.board.valid(),
        history::can_write(before.clip.board, EventView::Forget(id)),
        before.clip.board.takes(EventView::Forget(id)),
        id != before.clip.board.log.next_id(),
    ensures
        clip::typed(before.clip.board, entry@) == Ok::<EntryId, ClipError>(id) ==> {
            &&& after.clip.board.items == before.clip.board.items.remove(id)
            &&& !after.clip.board.log.entries.contains_key(id)
            &&& after.clip.board.forgotten.contains(id)
        },
        clip::typed(before.clip.board, entry@) is Err ==> after == before,
{
    if clip::typed(before.clip.board, entry@) == Ok::<EntryId, ClipError>(id) {
        history::lemma_forgot(before.clip.board, id, now);
    }
}

/// Clearing empties the clipboard, and keeps the history.
pub proof fn what_is_asked_to_be_cleared_is(
    before: ContextView,
    settings: Settings,
    peers: Seq<PeerStatus>,
    now: Time,
    step: Step,
    after: ContextView,
)
    requires
        answered(before, settings, Request::Clear { history: false }, peers, now, step, after),
        history::can_write(before.clip.board, EventView::Clear),
        before.clip.board.takes(EventView::Clear),
        history::nothing_is_ahead(before.clip.board),
    ensures
        after.clip.board.items == before.clip.board.items,
        after.clip.board.selected() is None,
        step matches Step::Reply { response, orders } && response@ is Cleared,
{
    history::lemma_cleared(before.clip.board, now);
}

/// What is pasted is what was copied: the answer to asking for an entry carries
/// the bytes of the type it was copied in first, or of the type asked for.
pub proof fn what_is_asked_for_is_pasted(
    before: ContextView,
    settings: Settings,
    entry: Option<String>,
    mime: Option<String>,
    peers: Seq<PeerStatus>,
    now: Time,
    step: Step,
    after: ContextView,
    id: EntryId,
    copy: CopyView,
    i: int,
)
    requires
        answered(before, settings, Request::Paste { entry, mime }, peers, now, step, after),
        clip::meant(before.clip.board, owned_view(entry)) == Ok::<EntryId, ClipError>(id),
        before.clip.board.copied(id) == Some(copy),
        0 <= i < copy.reps.len(),
        mime is None ==> i == 0,
        mime matches Some(kind) ==> text::same_but_case(copy.reps[i].0, kind@) && forall|j: int|
            0 <= j < i ==> !text::same_but_case((#[trigger] copy.reps[j]).0, kind@),
    ensures
        step matches Step::Reply { response, orders } && orders@.len() == 0 && (response@ matches
            ResponseView::Contents { mime: kind, alternates, bytes } && kind == copy.reps[i].0
            && bytes == copy.reps[i].1),
        after == before,
{
    let board = before.clip.board;
    let result = choose|result: Result<(String, Vec<String>, Vec<u8>), ServiceError>|
        {
            &&& #[trigger] clip::pasted(board, owned_view(entry), owned_view(mime), result)
            &&& match result {
                Ok((kind, alternates, bytes)) => step.answers(
                    ResponseView::Contents {
                        mime: kind@,
                        alternates: crate::clip::mime::owned_texts(alternates@),
                        bytes: bytes@,
                    },
                ),
                Err(error) => step.fails(
                    told::failure_text(
                        error@,
                        settings.max_entry_size,
                        typed_or_none(entry),
                        typed_or_none(mime),
                    ),
                ),
            }
        };
    match mime {
        Some(kind) => {
            clip::pasting_a_type_gives_its_bytes(
                board,
                owned_view(entry),
                kind@,
                id,
                copy,
                i,
                result,
            );
        },
        None => {
            clip::pasting_gives_back_what_was_copied(board, owned_view(entry), id, copy, result);
        },
    }
}

/// Of the files of an entry it is told where they are once they are here, each
/// with its path and its size; until then they are waited for, and of files
/// copied here it is not told.
pub proof fn where_files_are_is_told(
    before: ContextView,
    settings: Settings,
    entry: Option<String>,
    peers: Seq<PeerStatus>,
    now: Time,
    step: Step,
    after: ContextView,
    id: EntryId,
    i: int,
)
    requires
        answered(before, settings, Request::Files { entry }, peers, now, step, after),
        clip::meant(before.clip.board, owned_view(entry)) == Ok::<EntryId, ClipError>(id),
        before.clip.board.items[id].files.len() > 0,
        id.origin != before.clip.board.log.origin,
    ensures
        ({
            let list = before.clip.board.items[id].files;
            &&& before.clip.board.ready.contains_key(id) ==> (step matches Step::Reply {
                response,
                orders,
            } && (response@ matches ResponseView::Files { label, tree, files } && label
                == id.label_text() && tree is Some && files.len() == list.len() && (0 <= i
                < list.len() ==> files[i] == (list[i].path, list[i].size))))
            &&& !before.clip.board.ready.contains_key(id) ==> (step matches Step::Await {
                id: asked,
                files,
            } && asked == id && files::manifest(files@) == list)
        }),
        after == before,
{
}

/// The state of the daemon is told as it is: how many entries there are, what is
/// selected and what is paused, and for how long it has been up.
pub proof fn the_state_of_the_daemon_is_told(
    context: ContextView,
    peers: Seq<PeerStatus>,
    now: Time,
)
    requires
        context.started.nanos <= now.nanos,
        now.nanos / 1_000_000_000 <= u64::MAX,
        context.clip.board.items.len() <= usize::MAX,
    ensures
        ({
            let told = told_status(context, peers, now);
            let board = context.clip.board;
            &&& told.endpoint == context.local
            &&& told.uptime_secs == (now.nanos - context.started.nanos) / 1_000_000_000
            &&& told.pause == board.pause
            &&& told.entries == board.items.len()
            &&& told.peers == peers
            &&& told.version == context.version
            &&& board.selected() is None ==> told.selection is None
            &&& board.selected() matches Some(id) ==> (board.items.contains_key(id)
                ==> told.selection == Some(
                told_entry(board.items[id], context.local, context.mesh, Some(id), now),
            ))
            &&& context.clip.down is None <==> told.backend is None
        }),
{
}

/// A machine that is asked to be removed is, when what was typed means it alone:
/// its record is a tombstone that outranks what was known of it, and nothing
/// else changes.
pub proof fn what_is_asked_to_be_removed_is(
    peers: Map<EndpointId, PeerView>,
    typed: Seq<char>,
    id: EndpointId,
)
    requires
        peers.dom().finite(),
        mesh::meant(peers, typed) == seq![id],
        peers.contains_key(id) ==> peers[id].version < 0x1_0000_0000,
    ensures
        removal(peers, typed) matches Ok((removed, next)) && removed == id && next.contains_key(id)
            && next[id].name is None && next[id].version > peers[id].version && next.remove(id)
            == peers.remove(id),
{
    mesh::whom_what_was_typed_means(peers, typed, id);
    assert(seq![id].contains(id)) by {
        assert(seq![id][0] == id);
    }
    store::pairing_and_removing_change_one_machine(peers, Seq::empty(), id);
}


/// Clearing the history too leaves none of it: what clearing the clipboard
/// alone would have left goes as well.
pub proof fn the_history_is_cleared_where_that_is_asked(
    before: ContextView,
    settings: Settings,
    peers: Seq<PeerStatus>,
    now: Time,
    step: Step,
    after: ContextView,
    shorter: Step,
    between: ContextView,
)
    requires
        answered(before, settings, Request::Clear { history: true }, peers, now, step, after),
        answered(before, settings, Request::Clear { history: false }, peers, now, shorter, between),
        before.clip.board.takes(EventView::Clear),
        between.clip.board.takes(EventView::Purge),
        history::can_write(between.clip.board, EventView::Purge),
        history::nothing_is_ahead(between.clip.board),
    ensures
        after.clip.board.items.dom() == Set::<EntryId>::empty(),
        after.clip.board.selected() is None,
        step matches Step::Reply { response, orders } && response@ is Cleared,
{
    history::lemma_purged(between.clip.board, now);
    assert(after.clip.board.items.dom() =~= Set::<EntryId>::empty());
}

/// Asking for a ticket under a name that may be shown revokes the one that is
/// out, touches nothing else, and has one made under that name; under any other
/// name nothing is done.
pub proof fn a_new_ticket_revokes_the_last(
    before: ContextView,
    settings: Settings,
    name: String,
    peers: Seq<PeerStatus>,
    now: Time,
    step: Step,
    after: ContextView,
)
    requires
        answered(before, settings, Request::PairHost { name }, peers, now, step, after),
    ensures
        mesh::proper_name(name@) ==> {
            &&& after.pairing.issued is None
            &&& after.mesh == before.mesh
            &&& after.clip == before.clip
            &&& step matches Step::Host { name: kept } && kept@ == name@
        },
        !mesh::proper_name(name@) ==> after == before && !(step is Host),
{
    mesh::which_names_are_taken(name@);
}

/// A ticket that was made is joined by, with white space around it or none, and
/// under the name that was asked for; nothing is joined under a name that may
/// not be shown, and nothing here changes either way.
pub proof fn a_ticket_is_joined_by(
    before: ContextView,
    settings: Settings,
    made: TicketView,
    first: Seq<char>,
    last: Seq<char>,
    typed: String,
    name: String,
    peers: Seq<PeerStatus>,
    now: Time,
    step: Step,
    after: ContextView,
)
    requires
        answered(before, settings, Request::PairJoin { ticket: typed, name }, peers, now, step, after),
        made.valid(),
        preview::blank(first),
        preview::blank(last),
        typed@ == first + made.text() + last,
        vstd::utf8::encode_utf8(ticket::encoded_part(typed@)->0).len() <= usize::MAX / 8,
    ensures
        after == before,
        mesh::proper_name(name@) ==> (step matches Step::Join { ticket: kept, name: ours } && kept@
            == made && ours@ == name@),
        !mesh::proper_name(name@) ==> !(step is Join),
{
    mesh::which_names_are_taken(name@);
    if mesh::proper_name(name@) {
        let result = choose|result: Result<PairTicket, TicketError>|
            {
                &&& #[trigger] parsed(typed@, result)
                &&& match result {
                    Ok(ticket) => step matches Step::Join { ticket: kept, name: ours } && kept
                        == ticket && ours@ == name@,
                    Err(error) => step.fails(told::ticket_text(error)),
                }
            };
        ticket::a_ticket_may_be_typed_loosely(made, first, last, ticket::read_as(result));
    }
}

} // verus!
