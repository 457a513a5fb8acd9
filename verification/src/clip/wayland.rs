//! The selection of a Wayland seat: whose it is, what it offers, and what of it
//! is to be read.
//!
//! The compositor names offers and sources by numbers of its own, and so does
//! what follows. Whoever holds the connection passes on what the compositor
//! says and carries out the answers.

use crate::clip::event;
use crate::clip::event::{Rep, Selection};
use crate::clip::mime;
use crate::clip::offer;
use crate::clip::offer::{Serve, ServeView};
use crate::clip::sharing;
use crate::clip::state::Captured;
use crate::log;
use crate::log::Payload;
use crate::ordmap::OrdMap;
use vstd::prelude::*;

verus! {

/// What is taken off the clipboard, and what is not.
#[derive(Debug)]
pub struct Policy {
    /// How much a single capture may read, so an application offering a
    /// gigabyte cannot be used to exhaust our memory.
    pub max_bytes: usize,
    /// Types never captured, on top of those refused anyway.
    pub ignore: Vec<String>,
}

/// What a device tells us.
#[derive(Clone, Copy, Debug)]
pub enum DeviceEvent {
    /// A new offer, whose types arrive next.
    NewOffer(u64),
    /// The selection changed; nothing means it was emptied.
    Selection(Option<u64>),
    /// The compositor withdrew the device: nothing more will arrive.
    Finished,
}

/// What is done about it.
#[derive(Debug)]
pub struct Outcome {
    /// Offers the compositor superseded. An offer that is never used still
    /// holds an object on the other side until we say otherwise.
    pub released: Vec<u64>,
    /// Whether to report that the selection was emptied.
    pub emptied: bool,
}

/// A selection to be read.
#[derive(Debug)]
pub struct PendingRead {
    pub offer: u64,
    /// The types to read it in, the one that names it first.
    pub types: Vec<String>,
    /// Whether the source flagged it as a password.
    pub secret: bool,
}

/// A selection to be read, for contracts.
#[verifier::ext_equal]
pub struct PendingView {
    pub offer: u64,
    pub types: Seq<Seq<char>>,
    pub secret: bool,
}

impl View for PendingRead {
    type V = PendingView;

    open spec fn view(&self) -> PendingView {
        PendingView {
            offer: self.offer,
            types: mime::owned_texts(self.types@),
            secret: self.secret,
        }
    }
}

/// A selection there may be to read.
pub open spec fn pending_view(pending: Option<PendingRead>) -> Option<PendingView> {
    match pending {
        Some(pending) => Some(pending@),
        None => None,
    }
}

/// The selection this machine owns.
#[derive(Debug)]
struct Held {
    source: u64,
    serves: Vec<Serve>,
}

/// The selection of a seat.
pub struct Seat {
    /// Types announced so far, per offer, until the offer becomes the
    /// selection or is superseded.
    offers: OrdMap<u64, Vec<String>>,
    /// The offer the current selection came from, kept alive until the next
    /// selection replaces it.
    current: Option<u64>,
    held: Option<Held>,
    policy: Policy,
    /// Cleared when the compositor withdraws the device.
    alive: bool,
    pending: Option<PendingRead>,
}

/// The selection of a seat, for contracts.
#[verifier::ext_equal]
pub struct SeatView {
    pub offers: Map<u64, Seq<Seq<char>>>,
    pub current: Option<u64>,
    pub held: Option<(u64, Seq<ServeView>)>,
    pub ignore: Seq<Seq<char>>,
    pub alive: bool,
    pub pending: Option<PendingView>,
}

/// The types announced per offer.
spec fn announced(offers: Map<u64, Vec<String>>) -> Map<u64, Seq<Seq<char>>> {
    offers.map_values(|types: Vec<String>| mime::owned_texts(types@))
}

impl View for Seat {
    type V = SeatView;

    closed spec fn view(&self) -> SeatView {
        SeatView {
            offers: announced(self.offers@),
            current: self.current,
            held: match self.held {
                Some(held) => Some((held.source, offer::serve_views(held.serves@))),
                None => None,
            },
            ignore: mime::owned_texts(self.policy.ignore@),
            alive: self.alive,
            pending: pending_view(self.pending),
        }
    }
}

/// What is to be read of a selection of some types. Our own selection comes
/// back to us as an event like any other; the marker is what tells them apart,
/// and without it every machine would copy every entry back.
pub open spec fn to_read(
    offer: u64,
    types: Seq<Seq<char>>,
    ignore: Seq<Seq<char>>,
) -> Option<PendingView> {
    let chosen = mime::selected(types, ignore);
    if types.contains(mime::MARKER@) || chosen.len() == 0 {
        None
    } else {
        Some(
            PendingView { offer, types: chosen, secret: types.contains(mime::SECRET_HINT@) },
        )
    }
}

impl SeatView {
    /// The types an offer announced.
    pub open spec fn types_of(self, offer: u64) -> Seq<Seq<char>> {
        if self.offers.contains_key(offer) {
            self.offers[offer]
        } else {
            Seq::empty()
        }
    }

    /// The offers superseded by another selection.
    pub open spec fn superseded(self, by: Option<u64>) -> Set<u64> {
        Set::new(
            |offer: u64|
                self.current == Some(offer) || (self.offers.contains_key(offer) && by != Some(
                    offer,
                )),
        )
    }

    /// The seat once it has another selection.
    pub open spec fn with_selection(self, offer: Option<u64>) -> SeatView {
        SeatView {
            offers: Map::empty(),
            current: offer,
            pending: match offer {
                Some(id) => match to_read(id, self.types_of(id), self.ignore) {
                    Some(pending) => Some(pending),
                    None => self.pending,
                },
                None => self.pending,
            },
            ..self
        }
    }

    /// The seat after an event of its device.
    pub open spec fn after(self, event: DeviceEvent) -> SeatView {
        match event {
            DeviceEvent::NewOffer(offer) => SeatView {
                offers: self.offers.insert(offer, Seq::empty()),
                ..self
            },
            DeviceEvent::Selection(offer) => self.with_selection(offer),
            DeviceEvent::Finished => SeatView { alive: false, ..self },
        }
    }

    /// What is served of the selection this machine owns, under a type.
    pub open spec fn served(self, source: u64, mime: Seq<char>) -> Option<Seq<u8>> {
        match self.held {
            Some(held) => if held.0 == source {
                first_serving(held.1, mime)
            } else {
                None
            },
            None => None,
        }
    }
}

/// The bytes first offered under a type.
pub open spec fn first_serving(serves: Seq<ServeView>, mime: Seq<char>) -> Option<Seq<u8>>
    decreases serves.len(),
{
    if serves.len() == 0 {
        None
    } else if serves[0].0.contains(mime) {
        Some(serves[0].1)
    } else {
        first_serving(serves.skip(1), mime)
    }
}

/// The types a selection is announced under: every one it is served in, and
/// the marker that says it is ours.
pub open spec fn announced_types(serves: Seq<ServeView>) -> Seq<Seq<char>> {
    all_types(serves).push(mime::MARKER@)
}

/// Every type some bytes are served in.
pub open spec fn all_types(serves: Seq<ServeView>) -> Seq<Seq<char>>
    decreases serves.len(),
{
    if serves.len() == 0 {
        Seq::empty()
    } else {
        all_types(serves.drop_last()) + serves.last().0
    }
}

impl Seat {
    /// Whether everything is in order.
    pub closed spec fn wf(&self) -> bool {
        self.offers.wf()
    }

    /// How much a single capture may read.
    pub closed spec fn cap(&self) -> usize {
        self.policy.max_bytes
    }

    /// A seat nothing is known of.
    pub fn new(policy: Policy) -> (seat: Self)
        ensures
            seat.wf(),
            seat.cap() == policy.max_bytes,
            seat@ == (SeatView {
                offers: Map::empty(),
                current: None,
                held: None,
                ignore: mime::owned_texts(policy.ignore@),
                alive: true,
                pending: None,
            }),
    {
        let seat = Seat {
            offers: OrdMap::new(),
            current: None,
            held: None,
            policy,
            alive: true,
            pending: None,
        };
        assert(seat@.offers =~= Map::empty());
        seat
    }

    /// Whether the compositor still offers the device.
    pub fn is_alive(&self) -> (r: bool)
        ensures
            r == self@.alive,
    {
        self.alive
    }

    /// How much a single capture may read.
    pub fn max_bytes(&self) -> (n: usize)
        ensures
            n == self.cap(),
    {
        self.policy.max_bytes
    }

    /// The selection to be read, which is then on its way.
    pub fn take_pending(&mut self) -> (pending: Option<PendingRead>)
        ensures
            final(self).wf() == old(self).wf(),
            final(self).cap() == old(self).cap(),
            pending_view(pending) == old(self)@.pending,
            final(self)@ == (SeatView { pending: None, ..old(self)@ }),
    {
        self.pending.take()
    }

    /// Lets go of every offer, the one the selection came from among them.
    fn forget_stale_offers(&mut self) -> (released: Vec<u64>)
        requires
            old(self).wf(),
        ensures
            final(self).wf(),
            final(self).cap() == old(self).cap(),
            released@.to_set() == old(self)@.superseded(None),
            final(self)@ == (SeatView { offers: Map::empty(), current: None, ..old(self)@ }),
    {
        let ghost pairs = self.offers.pairs();
        proof {
            self.offers.lemma_pairs();
        }
        let mut released: Vec<u64> = Vec::new();
        let n: usize = self.offers.len();
        let mut i: usize = 0;
        while i < n
            invariant
                i <= n == pairs.len(),
                pairs == self.offers.pairs(),
                self.wf(),
                *self == *old(self),
                forall|offer: u64| #[trigger]
                    released@.contains(offer) <==> exists|j: int|
                        0 <= j < i && (#[trigger] pairs[j]).0 == offer,
            decreases n - i,
        {
            let id: u64 = self.offers.key_at(i);
            let ghost before = released@;
            released.push(id);
            assert forall|offer: u64| #[trigger] released@.contains(offer) <==> before.contains(
                offer,
            ) || offer == id by {
                assert(released@[before.len() as int] == id);
                if before.contains(offer) {
                    let k = choose|k: int| 0 <= k < before.len() && before[k] == offer;
                    assert(released@[k] == offer);
                }
            }
            assert(pairs[i as int].0 == id);
            i += 1;
        }
        let ghost others = released@;
        if let Some(previous) = self.current {
            released.push(previous);
        }
        proof {
            assert forall|offer: u64| #[trigger]
                released@.to_set().contains(offer) <==> old(self)@.superseded(None).contains(
                    offer,
                ) by {
                if others.contains(offer) {
                    let k = choose|k: int| 0 <= k < others.len() && others[k] == offer;
                    assert(released@[k] == offer);
                }
                if self.current == Some(offer) {
                    assert(released@[others.len() as int] == offer);
                }
                if old(self)@.offers.contains_key(offer) {
                    assert(self.offers@.contains_key(offer));
                }
                assert(released@.contains(offer) <==> others.contains(offer) || self.current
                    == Some(offer));
            }
            assert(released@.to_set() =~= old(self)@.superseded(None));
        }
        self.offers = OrdMap::new();
        self.current = None;
        assert(self@.offers =~= Map::empty());
        released
    }

    /// Handles a device event: a new offer, a new selection, or the end.
    pub fn on_device(&mut self, event: DeviceEvent) -> (outcome: Outcome)
        requires
            old(self).wf(),
        ensures
            final(self).wf(),
            final(self).cap() == old(self).cap(),
            final(self)@ == old(self)@.after(event),
            outcome.emptied == (event == DeviceEvent::Selection(None)),
            match event {
                DeviceEvent::Selection(offer) => outcome.released@.to_set()
                    == old(self)@.superseded(offer),
                _ => outcome.released@.len() == 0,
            },
    {
        match event {
            DeviceEvent::NewOffer(id) => {
                let fresh: Vec<String> = Vec::new();
                assert(mime::owned_texts(fresh@) =~= Seq::empty());
                self.offers.insert(id, fresh);
                assert(self@.offers =~= old(self)@.offers.insert(id, Seq::empty()));
                Outcome { released: Vec::new(), emptied: false }
            },
            DeviceEvent::Selection(None) => {
                let released = self.forget_stale_offers();
                Outcome { released, emptied: true }
            },
            DeviceEvent::Selection(Some(id)) => {
                let types: Vec<String> = match self.offers.remove(&id) {
                    Some(types) => types,
                    None => Vec::new(),
                };
                assert(mime::owned_texts(types@) =~= old(self)@.types_of(id));
                assert(self@.superseded(None) =~= old(self)@.superseded(Some(id)));
                let released = self.forget_stale_offers();
                self.current = Some(id);
                let outcome = Outcome { released, emptied: false };
                if mime::is_ignored(types.as_slice(), mime::MARKER) {
                    return outcome;
                }
                let secret = mime::is_ignored(types.as_slice(), mime::SECRET_HINT);
                let chosen = mime::select(types.as_slice(), self.policy.ignore.as_slice());
                if chosen.len() == 0 {
                    return outcome;
                }
                let owned = mime::own(chosen.as_slice());
                self.pending = Some(PendingRead { offer: id, types: owned, secret });
                outcome
            },
            DeviceEvent::Finished => {
                self.alive = false;
                Outcome { released: Vec::new(), emptied: false }
            },
        }
    }

    /// Collects a type announced by an offer.
    pub fn on_offer_mime(&mut self, offer: u64, mime: String)
        requires
            old(self).wf(),
        ensures
            final(self).wf(),
            final(self).cap() == old(self).cap(),
            final(self)@ == (if old(self)@.offers.contains_key(offer) {
                SeatView {
                    offers: old(self)@.offers.insert(
                        offer,
                        old(self)@.offers[offer].push(mime@),
                    ),
                    ..old(self)@
                }
            } else {
                old(self)@
            }),
    {
        if let Some(mut types) = self.offers.remove(&offer) {
            types.push(mime);
            assert(mime::owned_texts(types@) =~= old(self)@.offers[offer].push(mime@));
            self.offers.insert(offer, types);
            assert(self@.offers =~= old(self)@.offers.insert(
                offer,
                old(self)@.offers[offer].push(mime@),
            ));
        } else {
            assert(self@.offers =~= old(self)@.offers);
        }
    }

    /// What to hand somebody pasting the selection of a source as a type, if
    /// anything.
    pub fn serve(&self, source: u64, mime: &str) -> (bytes: Option<Payload>)
        ensures
            match bytes {
                Some(bytes) => self@.served(source, mime@) == Some(log::payload_bytes(bytes)),
                None => self@.served(source, mime@) is None,
            },
    {
        let held = match &self.held {
            Some(held) => held,
            None => {
                return None;
            },
        };
        if held.source != source {
            return None;
        }
        let ghost all = offer::serve_views(held.serves@);
        assert(all.skip(0) =~= all);
        let mut i: usize = 0;
        while i < held.serves.len()
            invariant
                i <= held.serves.len(),
                all == offer::serve_views(held.serves@),
                self@.served(source, mime@) == first_serving(all, mime@),
                first_serving(all, mime@) == first_serving(all.skip(i as int), mime@),
            decreases held.serves.len() - i,
        {
            assert(all.skip(i as int)[0] == held.serves@[i as int]@);
            if mime::is_ignored(held.serves[i].mimes.as_slice(), mime) {
                return Some(held.serves[i].bytes.clone());
            }
            assert(all.skip(i as int).skip(1) =~= all.skip(i + 1));
            i += 1;
        }
        None
    }

    /// Another application took the selection of a source; what replaced it
    /// arrives separately. Whether the source is ours to let go of.
    pub fn cancelled(&mut self, source: u64) -> (destroy: bool)
        ensures
            final(self).wf() == old(self).wf(),
            final(self).cap() == old(self).cap(),
            destroy == (old(self)@.held matches Some(held) && held.0 == source),
            final(self)@ == (if destroy {
                SeatView { held: None, ..old(self)@ }
            } else {
                old(self)@
            }),
    {
        let ours = match &self.held {
            Some(held) => held.source == source,
            None => false,
        };
        if ours {
            self.held = None;
        }
        ours
    }

    /// Takes the selection with a source: the types to announce it under, and
    /// the source it replaces.
    pub fn offer(&mut self, source: u64, serves: Vec<Serve>) -> (announced: (
        Vec<String>,
        Option<u64>,
    ))
        ensures
            final(self).wf() == old(self).wf(),
            final(self).cap() == old(self).cap(),
            mime::owned_texts(announced.0@) == announced_types(offer::serve_views(serves@)),
            announced.1 == (match old(self)@.held {
                Some(held) => Some(held.0),
                None => None,
            }),
            final(self)@ == (SeatView {
                held: Some((source, offer::serve_views(serves@))),
                ..old(self)@
            }),
    {
        let ghost all = offer::serve_views(serves@);
        let mut types: Vec<String> = Vec::new();
        assert(all.take(0) =~= Seq::empty());
        assert(mime::owned_texts(types@) =~= all_types(all.take(0)));
        let mut i: usize = 0;
        while i < serves.len()
            invariant
                i <= serves.len(),
                all == offer::serve_views(serves@),
                mime::owned_texts(types@) == all_types(all.take(i as int)),
            decreases serves.len() - i,
        {
            let ghost before = mime::owned_texts(types@);
            let ghost more = mime::owned_texts(serves@[i as int].mimes@);
            let mut j: usize = 0;
            assert(more.take(0) =~= Seq::empty());
            assert(mime::owned_texts(types@) =~= before + more.take(0));
            while j < serves[i as usize].mimes.len()
                invariant
                    i < serves.len(),
                    j <= serves@[i as int].mimes@.len(),
                    more == mime::owned_texts(serves@[i as int].mimes@),
                    mime::owned_texts(types@) == before + more.take(j as int),
                decreases serves@[i as int].mimes@.len() - j,
            {
                let ghost so_far = mime::owned_texts(types@);
                types.push(serves[i].mimes[j].clone());
                assert(mime::owned_texts(types@) =~= so_far.push(more[j as int]));
                j += 1;
                assert(before + more.take(j as int) =~= so_far.push(more[j - 1]));
            }
            assert(more.take(j as int) =~= more);
            assert(all.take(i + 1).drop_last() =~= all.take(i as int));
            i += 1;
        }
        assert(all.take(i as int) =~= all);
        types.push(mime::MARKER.to_owned());
        assert(mime::owned_texts(types@) =~= announced_types(all));
        let previous: Option<u64> = match &self.held {
            Some(held) => Some(held.source),
            None => None,
        };
        self.held = Some(Held { source, serves });
        (types, previous)
    }

    /// Empties the selection, whoever owns it: the source to let go of.
    pub fn clear(&mut self) -> (released: Option<u64>)
        ensures
            final(self).wf() == old(self).wf(),
            final(self).cap() == old(self).cap(),
            released == (match old(self)@.held {
                Some(held) => Some(held.0),
                None => None,
            }),
            final(self)@ == (SeatView { held: None, ..old(self)@ }),
    {
        let released: Option<u64> = match &self.held {
            Some(held) => Some(held.source),
            None => None,
        };
        self.held = None;
        released
    }
}

/// What a selection announced by this machine reads as when it comes back: as
/// ours, so nothing of it is read.
pub proof fn our_own_selection_is_never_copied_back(
    offer: u64,
    serves: Seq<ServeView>,
    ignore: Seq<Seq<char>>,
)
    ensures
        to_read(offer, announced_types(serves), ignore) is None,
{
    let types = announced_types(serves);
    assert(types[types.len() - 1] == mime::MARKER@);
}

/// A selection that comes with the hint of a password manager is read as a
/// secret, and no other is.
pub proof fn a_password_is_read_as_a_secret(
    offer: u64,
    types: Seq<Seq<char>>,
    ignore: Seq<Seq<char>>,
)
    ensures
        to_read(offer, types, ignore) matches Some(pending) ==> pending.secret == types.contains(
            mime::SECRET_HINT@,
        ),
{
}

/// After a selection nothing but its own offer is kept alive, whatever was
/// announced before.
pub proof fn superseded_offers_are_released(seat: SeatView, offer: u64, other: u64)
    requires
        seat.offers.contains_key(other) || seat.current == Some(other),
        other != offer,
    ensures
        seat.superseded(Some(offer)).contains(other),
        !seat.after(DeviceEvent::Selection(Some(offer))).offers.contains_key(other),
        seat.after(DeviceEvent::Selection(Some(offer))).current == Some(offer),
{
}

/// A selection being read, one type after the other.
pub struct Reading {
    types: Vec<String>,
    at: usize,
    reps: Vec<Rep>,
    left: usize,
    secret: bool,
    dropped: bool,
}

/// A selection being read, for contracts.
#[verifier::ext_equal]
pub struct ReadingView {
    pub types: Seq<Seq<char>>,
    /// How many of the types were tried.
    pub at: int,
    /// What was read so far.
    pub reps: Seq<event::RepView>,
    /// How much more may be read.
    pub left: int,
    pub secret: bool,
    /// Whether the selection is given up on.
    pub dropped: bool,
}

impl View for Reading {
    type V = ReadingView;

    closed spec fn view(&self) -> ReadingView {
        ReadingView {
            types: mime::owned_texts(self.types@),
            at: self.at as int,
            reps: event::rep_views(self.reps@),
            left: self.left as int,
            secret: self.secret,
            dropped: self.dropped,
        }
    }
}

impl ReadingView {
    /// Whether nothing is left to ask for.
    pub open spec fn done(self) -> bool {
        self.dropped || self.at >= self.types.len()
    }

    /// Whether what came back can be kept: something, and no more than is
    /// left to read.
    pub open spec fn usable(self, read: Option<Seq<u8>>) -> bool {
        read matches Some(bytes) && 0 < bytes.len() <= self.left
    }

    /// The reading once a type was tried. A selection without what names it is
    /// given up on; without another of its types it is only that much poorer.
    pub open spec fn tried(self, read: Option<Seq<u8>>) -> ReadingView {
        if self.usable(read) {
            ReadingView {
                at: self.at + 1,
                reps: self.reps.push((self.types[self.at], read->0)),
                left: self.left - read->0.len(),
                ..self
            }
        } else if self.at == 0 {
            ReadingView { dropped: true, ..self }
        } else {
            ReadingView { at: self.at + 1, ..self }
        }
    }
}

/// How a selection starts to be read.
pub open spec fn unread(pending: PendingView, max_bytes: int) -> ReadingView {
    ReadingView {
        types: pending.types,
        at: 0,
        reps: Seq::empty(),
        left: max_bytes,
        secret: pending.secret,
        dropped: false,
    }
}

/// How a selection is read when that is what came back of its types.
pub open spec fn after_reads(
    pending: PendingView,
    max_bytes: int,
    reads: Seq<Option<Seq<u8>>>,
) -> ReadingView
    decreases reads.len(),
{
    if reads.len() == 0 {
        unread(pending, max_bytes)
    } else {
        let before = after_reads(pending, max_bytes, reads.drop_last());
        if before.done() {
            before
        } else {
            before.tried(reads.last())
        }
    }
}

impl Reading {
    /// Whether everything is in order.
    pub closed spec fn wf(&self) -> bool {
        self.at <= self.types@.len()
    }

    /// Starts to read a selection.
    pub fn begin(pending: PendingRead, max_bytes: usize) -> (reading: Self)
        ensures
            reading.wf(),
            reading@ == unread(pending@, max_bytes as int),
    {
        let reading = Reading {
            types: pending.types,
            at: 0,
            reps: Vec::new(),
            left: max_bytes,
            secret: pending.secret,
            dropped: false,
        };
        assert(reading@.reps =~= Seq::empty());
        reading
    }

    /// The type to ask for next, and how much of it there may be. One byte past
    /// that is enough to know that there is more.
    pub fn next(&self) -> (asked: Option<(&str, usize)>)
        requires
            self.wf(),
        ensures
            match asked {
                Some((mime, limit)) => {
                    &&& !self@.done()
                    &&& mime@ == self@.types[self@.at]
                    &&& limit == self@.left
                },
                None => self@.done(),
            },
    {
        if self.dropped || self.at >= self.types.len() {
            None
        } else {
            Some((self.types[self.at].as_str(), self.left))
        }
    }

    /// Takes what came back of the type asked for, or that nothing did.
    pub fn read(&mut self, bytes: Option<Vec<u8>>)
        requires
            old(self).wf(),
            !old(self)@.done(),
        ensures
            final(self).wf(),
            final(self)@ == old(self)@.tried(
                match bytes {
                    Some(bytes) => Some(bytes@),
                    None => None,
                },
            ),
    {
        assert(self.at < self.types.len());
        if let Some(bytes) = bytes {
            if 0 < bytes.len() && bytes.len() <= self.left {
                self.left = self.left - bytes.len();
                let rep = Rep::new(self.types[self.at].as_str(), bytes);
                let ghost before = event::rep_views(self.reps@);
                self.reps.push(rep);
                assert(event::rep_views(self.reps@) =~= before.push(rep@));
                self.at += 1;
                return;
            }
        }
        if self.at == 0 {
            self.dropped = true;
        } else {
            self.at += 1;
        }
    }

    /// The selection that was read, if anything of it was.
    pub fn finish(self) -> (captured: Option<Captured>)
        ensures
            match captured {
                Some(captured) => {
                    &&& self@.reps.len() > 0
                    &&& captured.selection@ == self@.reps
                    &&& captured.secret == self@.secret
                },
                None => self@.reps.len() == 0,
            },
    {
        let secret = self.secret;
        match Selection::new(self.reps) {
            Some(selection) => Some(Captured { selection, secret }),
            None => None,
        }
    }
}

/// How much some representations weigh.
pub open spec fn weight(reps: Seq<event::RepView>) -> int
    decreases reps.len(),
{
    if reps.len() == 0 {
        0
    } else {
        weight(reps.drop_last()) + reps.last().1.len()
    }
}

/// However much an application offers, no more than the cap is kept of it, and
/// what is kept comes first under the type that names the selection.
pub proof fn a_capture_is_bounded(
    pending: PendingView,
    max_bytes: int,
    reads: Seq<Option<Seq<u8>>>,
)
    requires
        0 <= max_bytes,
    ensures
        ({
            let reading = after_reads(pending, max_bytes, reads);
            &&& weight(reading.reps) <= max_bytes
            &&& weight(reading.reps) + reading.left == max_bytes
            &&& reading.left >= 0
            &&& reading.types == pending.types
            &&& reading.at == 0 ==> reading.reps.len() == 0
            &&& reading.at > 0 ==> reading.reps.len() > 0 && reading.reps[0].0 == pending.types[0]
            &&& reading.at >= 0
        }),
    decreases reads.len(),
{
    if reads.len() > 0 {
        a_capture_is_bounded(pending, max_bytes, reads.drop_last());
        let before = after_reads(pending, max_bytes, reads.drop_last());
        if !before.done() && before.usable(reads.last()) {
            let after = before.tried(reads.last());
            assert(after.reps.drop_last() =~= before.reps);
        }
    }
}

/// A selection that becomes current is read in every type chosen of those that
/// were announced for it, as a secret exactly when a password manager said so,
/// unless it is our own or there is nothing to choose; and a selection that goes
/// leaves what is still to be read as it is.
pub proof fn a_new_selection_is_read(seat: SeatView, offer: u64)
    ensures
        ({
            let types = if seat.offers.contains_key(offer) {
                seat.offers[offer]
            } else {
                Seq::empty()
            };
            let chosen = mime::selected(types, seat.ignore);
            let after = seat.after(DeviceEvent::Selection(Some(offer)));
            &&& !types.contains("application/x-yank"@) && chosen.len() > 0 ==> after.pending
                == Some(
                PendingView {
                    offer,
                    types: chosen,
                    secret: types.contains("x-kde-passwordManagerHint"@),
                },
            )
            &&& types.contains("application/x-yank"@) || chosen.len() == 0 ==> after.pending
                == seat.pending
            &&& after.held == seat.held
            &&& after.alive == seat.alive
            &&& after.ignore == seat.ignore
            &&& after.current == Some(offer)
        }),
        seat.after(DeviceEvent::Selection(None)) == (SeatView {
            offers: Map::empty(),
            current: None,
            ..seat
        }),
        seat.after(DeviceEvent::NewOffer(offer)) == (SeatView {
            offers: seat.offers.insert(offer, Seq::empty()),
            ..seat
        }),
        seat.after(DeviceEvent::Finished) == (SeatView { alive: false, ..seat }),
{
}

/// What an application is served of our selection is what a paste of it gives:
/// the bytes under the type it asks for; and nothing for a source that is not
/// the one we hold.
pub proof fn what_is_served_is_what_was_offered(
    seat: SeatView,
    source: u64,
    serves: Seq<ServeView>,
    mime: Seq<char>,
)
    ensures
        seat.held == Some((source, serves)) ==> seat.served(source, mime) == sharing::paste(
            serves,
            mime,
        ),
        !(seat.held matches Some(held) && held.0 == source) ==> seat.served(source, mime) is None,
{
    lemma_first_serving(serves, mime);
}

proof fn lemma_first_serving(serves: Seq<ServeView>, mime: Seq<char>)
    ensures
        first_serving(serves, mime) == sharing::paste(serves, mime),
    decreases serves.len(),
{
    if serves.len() > 0 {
        let rest = serves.skip(1);
        lemma_first_serving(rest, mime);
        lemma_paste_first(serves, mime);
    }
}

proof fn lemma_paste_first(serves: Seq<ServeView>, mime: Seq<char>)
    requires
        serves.len() > 0,
    ensures
        sharing::paste(serves, mime) == (if serves[0].0.contains(mime) {
            Some(serves[0].1)
        } else {
            sharing::paste(serves.skip(1), mime)
        }),
    decreases serves.len(),
{
    let less = serves.drop_last();
    if less.len() > 0 {
        lemma_paste_first(less, mime);
        assert(less.skip(1) =~= serves.skip(1).drop_last());
    } else {
        assert(serves.skip(1) =~= Seq::<ServeView>::empty());
        assert(sharing::paste(less, mime) is None);
    }
}

/// Our selection is announced under every type it is served in, and under the
/// mark that says it is ours, and under nothing else.
pub proof fn a_selection_is_announced_as_it_is_served(serves: Seq<ServeView>, mime: Seq<char>)
    ensures
        announced_types(serves).contains(mime) <==> mime == "application/x-yank"@
            || sharing::paste(serves, mime) is Some,
{
    lemma_all_types(serves, mime);
    let types = all_types(serves);
    let all = announced_types(serves);
    if types.contains(mime) {
        let k = choose|k: int| 0 <= k < types.len() && types[k] == mime;
        assert(all[k] == mime);
    }
    if all.contains(mime) && mime != "application/x-yank"@ {
        let k = choose|k: int| 0 <= k < all.len() && all[k] == mime;
        assert(types[k] == mime);
    }
    assert(all[types.len() as int] == "application/x-yank"@);
}

proof fn lemma_all_types(serves: Seq<ServeView>, mime: Seq<char>)
    ensures
        all_types(serves).contains(mime) <==> sharing::paste(serves, mime) is Some,
    decreases serves.len(),
{
    if serves.len() > 0 {
        let less = serves.drop_last();
        lemma_all_types(less, mime);
        let before = all_types(less);
        let own = serves.last().0;
        let all = all_types(serves);
        if before.contains(mime) {
            let k = choose|k: int| 0 <= k < before.len() && before[k] == mime;
            assert(all[k] == mime);
        }
        if own.contains(mime) {
            let k = choose|k: int| 0 <= k < own.len() && own[k] == mime;
            assert(all[before.len() + k] == mime);
        }
        if all.contains(mime) {
            let k = choose|k: int| 0 <= k < all.len() && all[k] == mime;
            if k < before.len() {
                assert(before[k] == mime);
            } else {
                assert(own[k - before.len()] == mime);
            }
        }
    }
}

/// How many bytes came back in all.
pub open spec fn came_back(reads: Seq<Option<Seq<u8>>>) -> int
    decreases reads.len(),
{
    if reads.len() == 0 {
        0
    } else {
        came_back(reads.drop_last()) + (match reads.last() {
            Some(bytes) => bytes.len() as int,
            None => 0,
        })
    }
}

/// Whether every read brought something.
pub open spec fn all_came_back(reads: Seq<Option<Seq<u8>>>) -> bool {
    forall|i: int|
        0 <= i < reads.len() ==> ((#[trigger] reads[i]) matches Some(bytes) && bytes.len() > 0)
}

/// When something comes back of every type, and no more in all than the cap, the
/// selection is captured whole: each type with what came back of it, in order.
pub proof fn a_selection_is_captured_whole(
    pending: PendingView,
    max_bytes: int,
    reads: Seq<Option<Seq<u8>>>,
)
    requires
        reads.len() <= pending.types.len(),
        all_came_back(reads),
        came_back(reads) <= max_bytes,
    ensures
        ({
            let reading = after_reads(pending, max_bytes, reads);
            &&& !reading.dropped
            &&& reading.at == reads.len()
            &&& reading.types == pending.types
            &&& reading.secret == pending.secret
            &&& reading.left == max_bytes - came_back(reads)
            &&& reading.reps == Seq::new(
                reads.len(),
                |i: int| (pending.types[i], reads[i]->0),
            )
            &&& reading.done() <==> reads.len() == pending.types.len()
        }),
    decreases reads.len(),
{
    let all = Seq::new(reads.len(), |i: int| (pending.types[i], reads[i]->0));
    if reads.len() == 0 {
        assert(all =~= Seq::empty());
    } else {
        let rest = reads.drop_last();
        assert forall|i: int| 0 <= i < rest.len() implies ((#[trigger] rest[i]) matches Some(bytes)
            && bytes.len() > 0) by {
            assert(rest[i] == reads[i]);
        }
        assert(reads[reads.len() - 1] == reads.last());
        assert(came_back(rest) <= came_back(reads));
        a_selection_is_captured_whole(pending, max_bytes, rest);
        let before = after_reads(pending, max_bytes, rest);
        assert(all =~= before.reps.push((pending.types[rest.len() as int], reads.last()->0)));
    }
}

/// A selection of which what names it does not come back, or is more than the
/// cap, is given up on; without another of its types it is only that much
/// poorer: what was read of it stays, and the next type is asked for.
pub proof fn a_selection_may_be_poorer(reading: ReadingView, read: Option<Seq<u8>>)
    requires
        !reading.done(),
        !(read matches Some(bytes) && 0 < bytes.len() <= reading.left),
    ensures
        reading.tried(read).reps == reading.reps,
        reading.tried(read).left == reading.left,
        reading.tried(read).types == reading.types,
        reading.tried(read).secret == reading.secret,
        reading.at == 0 ==> reading.tried(read).done(),
        reading.at != 0 ==> reading.tried(read).at == reading.at + 1 && !reading.tried(
            read,
        ).dropped,
{
}


} // verus!
