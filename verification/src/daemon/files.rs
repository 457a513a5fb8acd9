//! The file service: what makes a copied file a file on the other machine.
//!
//! ```text
//!   copy   uri-list ─► walk ─► spool ─► manifest ─► the entry, shared
//!   paste  fetch ─► pull the hashes ─► lay out ─► re-offer
//!   always entries dropped ─► sweep what nothing names any more
//! ```
//!
//! Copying is what holds the entry up: the files are spooled before it is
//! written, so an entry never names content this machine cannot serve. Pasting
//! is not: the entry reaches the clipboard as the text of its paths right
//! away, and becomes a file reference when the bytes land.

use crate::config::Settings;
use crate::files;
use crate::files::manifest;
use crate::files::manifest::ManifestError;
use crate::files::store;
use crate::files::store::{Store, StoreView};
use crate::files::walk;
use crate::files::walk::{Source, SourceView, WalkError};
use crate::files::FileRef;
use crate::log::EntryId;
use crate::ordmap::OrdMap;
use vstd::prelude::*;

verus! {

/// How many times a fetch is attempted before the entry stays text. A peer
/// that has the content may be asleep, and the clipboard entry outlives its
/// absence.
pub const RETRIES: usize = 6;

/// Whether a spool that holds some bytes has room for more under its budget.
pub fn room(held: u64, wanted: u64, budget: u64) -> (r: bool)
    ensures
        r == (held + wanted <= budget),
{
    held <= budget && wanted <= budget - held
}

/// The files of a selection being taken into the spool, in order.
pub struct Snapshot {
    sources: Vec<Source>,
    spooled: Vec<FileRef>,
}

/// The files of a selection being taken into the spool, for contracts.
#[verifier::ext_equal]
pub struct SnapshotView {
    pub sources: Seq<SourceView>,
    pub spooled: Seq<files::FileName>,
}

impl View for Snapshot {
    type V = SnapshotView;

    closed spec fn view(&self) -> SnapshotView {
        SnapshotView {
            sources: walk::source_views(self.sources@),
            spooled: files::manifest(self.spooled@),
        }
    }
}

/// Why files that were found are not taken into the spool, if they are not.
pub open spec fn taking_refusal(sources: Seq<SourceView>, held: u64, budget: u64) -> Option<
    WalkError,
> {
    if sources.len() == 0 {
        Some(WalkError::Empty)
    } else if walk::weight(sources) > u64::MAX {
        Some(WalkError::TooLarge)
    } else if held + walk::weight(sources) > budget {
        Some(WalkError::NoRoom { wanted: walk::weight(sources) as u64, budget })
    } else {
        None
    }
}

/// What some files weigh together, if that can be counted.
fn wanted(sources: &Vec<Source>) -> (total: Option<u64>)
    ensures
        match total {
            Some(total) => total == walk::weight(walk::source_views(sources@)),
            None => walk::weight(walk::source_views(sources@)) > u64::MAX,
        },
{
    let ghost all = walk::source_views(sources@);
    let mut total: u64 = 0;
    let mut i: usize = 0;
    while i < sources.len()
        invariant
            i <= sources.len(),
            all == walk::source_views(sources@),
            total == walk::weight(all.take(i as int)),
        decreases sources.len() - i,
    {
        proof {
            assert(all.take(i + 1).drop_last() =~= all.take(i as int));
            lemma_weight_grows(all, i + 1);
        }
        if total > u64::MAX - sources[i].size {
            return None;
        }
        total = total + sources[i].size;
        i += 1;
    }
    assert(all.take(i as int) =~= all);
    Some(total)
}

proof fn lemma_weight_grows(sources: Seq<SourceView>, n: int)
    requires
        0 <= n <= sources.len(),
    ensures
        walk::weight(sources.take(n)) <= walk::weight(sources),
    decreases sources.len() - n,
{
    if n == sources.len() {
        assert(sources.take(n) =~= sources);
    } else {
        assert(sources.take(n + 1).drop_last() =~= sources.take(n));
        lemma_weight_grows(sources, n + 1);
    }
}

impl Snapshot {
    /// Whether what was spooled keeps the names of the first files.
    pub closed spec fn wf(&self) -> bool {
        &&& self.spooled@.len() <= self.sources@.len()
        &&& forall|i: int|
            0 <= i < self.spooled@.len() ==> (#[trigger] self@.spooled[i]).path
                == self@.sources[i].path
    }

    /// Starts taking the files of a selection into a spool that holds some
    /// bytes, refusing what it has no room for.
    pub fn begin(sources: Vec<Source>, held: u64, budget: u64) -> (result: Result<
        Snapshot,
        WalkError,
    >)
        ensures
            match taking_refusal(walk::source_views(sources@), held, budget) {
                Some(error) => result == Err::<Snapshot, WalkError>(error),
                None => {
                    &&& result matches Ok(snapshot)
                    &&& snapshot.wf()
                    &&& snapshot@ == (SnapshotView {
                        sources: walk::source_views(sources@),
                        spooled: Seq::empty(),
                    })
                },
            },
    {
        if sources.len() == 0 {
            return Err(WalkError::Empty);
        }
        match wanted(&sources) {
            None => Err(WalkError::TooLarge),
            Some(total) => if room(held, total, budget) {
                let snapshot = Snapshot { sources, spooled: Vec::new() };
                assert(snapshot@.spooled =~= Seq::<files::FileName>::empty());
                Ok(snapshot)
            } else {
                Err(WalkError::NoRoom { wanted: total, budget })
            },
        }
    }

    /// The next file to copy into the spool, or none when all of them are
    /// there.
    pub fn next(&self) -> (source: Option<&Source>)
        requires
            self.wf(),
        ensures
            match source {
                Some(source) => self@.spooled.len() < self@.sources.len() && source@
                    == self@.sources[self@.spooled.len() as int],
                None => self@.spooled.len() == self@.sources.len(),
            },
    {
        let n: usize = self.spooled.len();
        if n < self.sources.len() {
            Some(&self.sources[n])
        } else {
            None
        }
    }

    /// Records what the next file turned out to be, and keeps it safe from a
    /// sweep until the manifest that names it is published.
    pub fn took(&mut self, spool: &mut Store, hash: files::Hash, size: u64)
        requires
            old(self).wf(),
            old(spool).wf(),
            old(self)@.spooled.len() < old(self)@.sources.len(),
            store::reserved(old(spool)@.pending, hash) < usize::MAX,
        ensures
            final(self).wf(),
            final(spool).wf(),
            final(spool)@ == (StoreView {
                pending: store::reserve_one(old(spool)@.pending, hash),
                ..old(spool)@
            }),
            final(self)@ == (SnapshotView {
                sources: old(self)@.sources,
                spooled: old(self)@.spooled.push(
                    files::FileName {
                        path: old(self)@.sources[old(self)@.spooled.len() as int].path,
                        size,
                        hash,
                    },
                ),
            }),
    {
        spool.reserve(hash);
        let ghost before = self@;
        let n: usize = self.spooled.len();
        let file = FileRef { path: self.sources[n].path.clone(), size, hash };
        self.spooled.push(file);
        assert(self@.spooled =~= before.spooled.push(file@));
    }

    /// Gives the selection up: nothing of it stays reserved.
    pub fn failed(self, spool: &mut Store)
        requires
            old(spool).wf(),
            store::all_reserved(old(spool)@.pending, self@.spooled),
        ensures
            final(spool).wf(),
            final(spool)@ == (StoreView {
                pending: store::release_all(old(spool)@.pending, self@.spooled),
                ..old(spool)@
            }),
    {
        spool.release(self.spooled.as_slice());
    }

    /// The manifest of the selection.
    pub fn finish(self) -> (list: Vec<FileRef>)
        ensures
            files::manifest(list@) == self@.spooled,
    {
        self.spooled
    }
}

/// Why the files of an entry are not brought here.
#[derive(Clone, Copy, Debug, PartialEq, Eq, Structural)]
pub enum FetchError {
    /// The manifest is not one.
    Manifest(ManifestError),
    /// It is over the limit in `config.toml`.
    OverLimit,
    /// The spool has no room for it.
    NoRoom,
    /// No machine that is up has this file of the entry.
    Unavailable { file: usize },
}

/// Why the files of an entry are not even asked for, if they are not.
pub open spec fn fetch_refusal(
    list: Seq<files::FileName>,
    held: u64,
    limit: u64,
    budget: u64,
) -> Option<FetchError> {
    if manifest::sum(list) > u64::MAX {
        Some(FetchError::Manifest(ManifestError::TooLarge))
    } else if manifest::sum(list) > limit {
        Some(FetchError::OverLimit)
    } else if manifest::refusal(list) is Some {
        Some(FetchError::Manifest(manifest::refusal(list)->0))
    } else if held + manifest::sum(list) > budget {
        Some(FetchError::NoRoom)
    } else {
        None
    }
}

/// What to do next about the files of an entry.
#[derive(Clone, Copy, Debug, PartialEq, Eq, Structural)]
pub enum FetchStep {
    /// The entry names no file.
    Nothing,
    /// See whether this file is in the spool, and which peers are up.
    Look { file: usize },
    /// Pull this file from one of the peers that are up.
    Pull { file: usize, peer: usize },
    /// Wait a while before trying again.
    Wait,
    /// Everything is here: lay it out.
    LayOut,
    /// Give up.
    Fail(FetchError),
}

/// What happened to a step of a fetch.
#[derive(Clone, Copy, Debug, PartialEq, Eq, Structural)]
pub enum FetchEvent {
    /// Whether the file is in the spool, and how many peers are up.
    Looked { here: bool, peers: usize },
    /// Whether the peer had the file, whole and as it was named.
    Pulled { had: bool },
    /// The wait is over.
    Waited,
}

/// The files of an entry on their way here.
#[derive(Clone, Copy, Debug, PartialEq, Eq, Structural)]
pub struct Fetch {
    /// How many files the entry names.
    pub count: usize,
    /// The file being looked for: the ones before it are here.
    pub file: usize,
    /// The peer being asked, among those that are up.
    pub peer: usize,
    /// How many peers are up.
    pub peers: usize,
    /// The attempt this is, counted from one.
    pub attempt: usize,
}

impl Fetch {
    /// Whether there is a file being looked for, and the attempts are not yet
    /// used up.
    pub open spec fn valid(self) -> bool {
        self.file < self.count && 1 <= self.attempt <= RETRIES && (self.peer < self.peers
            || self.peers == 0)
    }

    /// What follows once the file being looked for is here.
    pub open spec fn found(self) -> (Fetch, FetchStep) {
        if self.file + 1 == self.count {
            (self, FetchStep::LayOut)
        } else {
            (
                Fetch { file: (self.file + 1) as usize, peer: 0, peers: 0, ..self },
                FetchStep::Look { file: (self.file + 1) as usize },
            )
        }
    }

    /// What follows once no peer that is up has the file being looked for.
    pub open spec fn missed(self) -> (Fetch, FetchStep) {
        if self.attempt == RETRIES {
            (self, FetchStep::Fail(FetchError::Unavailable { file: self.file }))
        } else {
            (
                Fetch { file: 0, peer: 0, peers: 0, attempt: (self.attempt + 1) as usize, ..self },
                FetchStep::Wait,
            )
        }
    }

    /// What follows an event.
    pub open spec fn next(self, event: FetchEvent) -> (Fetch, FetchStep) {
        match event {
            FetchEvent::Waited => (self, FetchStep::Look { file: self.file }),
            FetchEvent::Looked { here, peers } => if here {
                self.found()
            } else if peers == 0 {
                self.missed()
            } else {
                (
                    Fetch { peer: 0, peers, ..self },
                    FetchStep::Pull { file: self.file, peer: 0 },
                )
            },
            FetchEvent::Pulled { had } => if had {
                self.found()
            } else if self.peer + 1 < self.peers {
                (
                    Fetch { peer: (self.peer + 1) as usize, ..self },
                    FetchStep::Pull { file: self.file, peer: (self.peer + 1) as usize },
                )
            } else {
                self.missed()
            },
        }
    }

    /// Starts bringing the files of an entry here, into a spool that holds
    /// some bytes.
    pub fn begin(list: &[FileRef], held: u64, settings: &Settings) -> (start: (Fetch, FetchStep))
        ensures
            start.0 == (Fetch { count: list@.len() as usize, file: 0, peer: 0, peers: 0, attempt: 1 }),
            start.1 == (if list@.len() == 0 {
                FetchStep::Nothing
            } else {
                match fetch_refusal(
                    files::manifest(list@),
                    held,
                    settings.max_file_size,
                    settings.file_budget,
                ) {
                    Some(error) => FetchStep::Fail(error),
                    None => FetchStep::Look { file: 0 },
                }
            }),
            start.1 is Look ==> start.0.valid(),
    {
        let fetch = Fetch { count: list.len(), file: 0, peer: 0, peers: 0, attempt: 1 };
        if list.len() == 0 {
            return (fetch, FetchStep::Nothing);
        }
        let total: u64 = match files::total(list) {
            Ok(total) => total,
            Err(error) => {
                return (fetch, FetchStep::Fail(FetchError::Manifest(error)));
            },
        };
        if total > settings.max_file_bytes() {
            return (fetch, FetchStep::Fail(FetchError::OverLimit));
        }
        match files::validate(list) {
            Ok(_) => {},
            Err(error) => {
                return (fetch, FetchStep::Fail(FetchError::Manifest(error)));
            },
        }
        if !room(held, total, settings.file_budget) {
            return (fetch, FetchStep::Fail(FetchError::NoRoom));
        }
        (fetch, FetchStep::Look { file: 0 })
    }

    /// Takes what happened to the last step, and says what follows.
    pub fn on(&mut self, event: FetchEvent) -> (step: FetchStep)
        requires
            old(self).valid(),
        ensures
            (*final(self), step) == old(self).next(event),
            final(self).valid(),
    {
        match event {
            FetchEvent::Waited => FetchStep::Look { file: self.file },
            FetchEvent::Looked { here, peers } => if here {
                self.go_on()
            } else if peers == 0 {
                self.miss()
            } else {
                self.peer = 0;
                self.peers = peers;
                FetchStep::Pull { file: self.file, peer: 0 }
            },
            FetchEvent::Pulled { had } => if had {
                self.go_on()
            } else if self.peers > 0 && self.peer < self.peers - 1 {
                self.peer = self.peer + 1;
                FetchStep::Pull { file: self.file, peer: self.peer }
            } else {
                self.miss()
            },
        }
    }

    /// The file being looked for is here.
    fn go_on(&mut self) -> (step: FetchStep)
        requires
            old(self).valid(),
        ensures
            (*final(self), step) == old(self).found(),
            final(self).valid(),
    {
        if self.file == self.count - 1 {
            FetchStep::LayOut
        } else {
            self.file = self.file + 1;
            self.peer = 0;
            self.peers = 0;
            FetchStep::Look { file: self.file }
        }
    }

    /// No peer that is up has the file being looked for.
    fn miss(&mut self) -> (step: FetchStep)
        requires
            old(self).valid(),
        ensures
            (*final(self), step) == old(self).missed(),
            final(self).valid(),
    {
        if self.attempt == RETRIES {
            FetchStep::Fail(FetchError::Unavailable { file: self.file })
        } else {
            self.attempt = self.attempt + 1;
            self.file = 0;
            self.peer = 0;
            self.peers = 0;
            FetchStep::Wait
        }
    }
}

/// Where a fetch stands after some events.
pub open spec fn after(fetch: Fetch, events: Seq<FetchEvent>) -> Fetch
    decreases events.len(),
{
    if events.len() == 0 {
        fetch
    } else {
        after(fetch, events.drop_last()).next(events.last()).0
    }
}

/// Whether an event says that a file is here.
pub open spec fn is_arrival(event: FetchEvent) -> bool {
    event == (FetchEvent::Pulled { had: true }) || event matches FetchEvent::Looked {
        here: true,
        ..
    }
}

/// How many of the last events, going back to the last missed file, say that a
/// file is here.
pub open spec fn arrivals(fetch: Fetch, events: Seq<FetchEvent>) -> nat
    decreases events.len(),
{
    if events.len() == 0 {
        0
    } else {
        let before = after(fetch, events.drop_last());
        let here = before.next(events.last()).0;
        if here.attempt != before.attempt {
            0
        } else if is_arrival(events.last()) {
            arrivals(fetch, events.drop_last()) + 1
        } else {
            arrivals(fetch, events.drop_last())
        }
    }
}

/// A file that is here is never pulled: a pull follows only a look that did not
/// find the file it is for, or a peer that did not have it.
pub proof fn what_is_here_is_not_pulled(fetch: Fetch, event: FetchEvent)
    requires
        fetch.valid(),
        fetch.next(event).1 is Pull,
    ensures
        !is_arrival(event),
        event is Looked || event is Pulled,
        fetch.next(event).1 matches FetchStep::Pull { file, peer } && file == fetch.file && peer
            < fetch.next(event).0.peers,
{
}

proof fn lemma_here(fetch: Fetch, events: Seq<FetchEvent>)
    requires
        fetch.valid(),
        fetch.file == 0,
        forall|n: int| #![trigger events[n]]
            0 <= n < events.len() ==> !(after(fetch, events.take(n)).next(
                events[n],
            ).1 is LayOut) && !(after(fetch, events.take(n)).next(events[n]).1 is Fail),
    ensures
        after(fetch, events).valid(),
        after(fetch, events).file == arrivals(fetch, events),
        after(fetch, events).count == fetch.count,
    decreases events.len(),
{
    if events.len() > 0 {
        let rest = events.drop_last();
        assert forall|n: int| #![trigger rest[n]] 0 <= n < rest.len() implies !(after(
            fetch,
            rest.take(n),
        ).next(rest[n]).1 is LayOut) && !(after(fetch, rest.take(n)).next(rest[n]).1 is Fail) by {
            assert(rest.take(n) =~= events.take(n));
            assert(rest[n] == events[n]);
        }
        lemma_here(fetch, rest);
        assert(events.take(events.len() - 1) =~= rest);
        assert(events[events.len() - 1] == events.last());
    }
}

/// An entry is laid out only once every one of its files is here: when a fetch
/// says so, as many arrivals in a row as there are files have been reported.
pub proof fn nothing_is_laid_out_before_it_is_all_here(
    fetch: Fetch,
    events: Seq<FetchEvent>,
    event: FetchEvent,
)
    requires
        fetch.valid(),
        fetch.file == 0,
        forall|n: int| #![trigger events[n]]
            0 <= n < events.len() ==> !(after(fetch, events.take(n)).next(
                events[n],
            ).1 is LayOut) && !(after(fetch, events.take(n)).next(events[n]).1 is Fail),
        after(fetch, events).next(event).1 is LayOut,
    ensures
        is_arrival(event),
        arrivals(fetch, events) + 1 == fetch.count,
{
    lemma_here(fetch, events);
}

/// The entries whose files are being brought here. The clipboard and a caller
/// waiting on the files both ask, and running the fetch twice would have the
/// second lay the tree out again under the first.
pub struct Asked {
    ids: OrdMap<EntryId, ()>,
}

impl View for Asked {
    type V = Set<EntryId>;

    closed spec fn view(&self) -> Set<EntryId> {
        self.ids@.dom()
    }
}

impl Asked {
    /// Whether the entries are in order.
    pub closed spec fn wf(&self) -> bool {
        self.ids.wf()
    }

    /// Nothing asked for.
    pub fn new() -> (asked: Self)
        ensures
            asked.wf(),
            asked@ == Set::<EntryId>::empty(),
    {
        let asked = Asked { ids: OrdMap::new() };
        assert(asked@ =~= Set::<EntryId>::empty());
        asked
    }

    /// Asks for the files of an entry. Returns whether they have to be
    /// fetched: they are when nobody had asked yet.
    pub fn ask(&mut self, id: EntryId) -> (fetch: bool)
        requires
            old(self).wf(),
        ensures
            final(self).wf(),
            final(self)@ == old(self)@.insert(id),
            fetch == !old(self)@.contains(id),
    {
        let fetch: bool = !self.ids.contains_key(&id);
        let ghost before = self@;
        self.ids.insert(id, ());
        assert(self@ =~= before.insert(id));
        fetch
    }

    /// The fetch of an entry has ended, one way or another.
    pub fn done(&mut self, id: EntryId)
        requires
            old(self).wf(),
        ensures
            final(self).wf(),
            final(self)@ == old(self)@.remove(id),
    {
        let ghost before = self@;
        self.ids.remove(&id);
        assert(self@ =~= before.remove(id));
    }
}

/// Files that were found are taken into the spool when there are any and they
/// fit what is left of its budget, and only then.
pub proof fn what_fits_is_taken(sources: Seq<SourceView>, held: u64, budget: u64)
    ensures
        taking_refusal(sources, held, budget) is None <==> sources.len() > 0 && held
            + walk::bytes_of(sources) <= budget,
        sources.len() == 0 ==> taking_refusal(sources, held, budget) == Some(WalkError::Empty),
{
    walk::lemma_bytes_of(sources);
}

/// The files of an entry are asked for when their manifest is one that may be
/// laid out, they are no larger together than is shared, and they fit what is
/// left of the budget of the spool; and only then.
pub proof fn what_fits_is_fetched(
    list: Seq<files::FileName>,
    held: u64,
    limit: u64,
    budget: u64,
)
    ensures
        fetch_refusal(list, held, limit, budget) is None <==> manifest::refusal(list) is None
            && manifest::sum(list) <= limit && held + manifest::sum(list) <= budget,
{
}

/// A file that is here is followed by the next, and the last one by laying the
/// entry out.
pub proof fn the_files_are_brought_one_after_the_other(fetch: Fetch, event: FetchEvent)
    requires
        fetch.valid(),
        is_arrival(event),
    ensures
        fetch.file + 1 == fetch.count ==> fetch.next(event).1 is LayOut,
        fetch.file + 1 < fetch.count ==> fetch.next(event).1 == (FetchStep::Look {
            file: (fetch.file + 1) as usize,
        }) && fetch.next(event).0.file == fetch.file + 1 && fetch.next(event).0.attempt
            == fetch.attempt && fetch.next(event).0.count == fetch.count,
{
}

/// Peers that do not have a file, one after the other.
pub open spec fn without_luck(n: nat) -> Seq<FetchEvent> {
    Seq::new(n, |i: int| FetchEvent::Pulled { had: false })
}

/// A file that is not here is asked of every peer that is up, in turn, until one
/// has it; when none does the fetch waits and begins again, and after the last
/// attempt it gives up.
pub proof fn a_file_is_asked_of_every_peer(fetch: Fetch, peers: usize, n: nat)
    requires
        fetch.valid(),
        n < peers,
    ensures
        ({
            let asked = fetch.next(FetchEvent::Looked { here: false, peers }).0;
            let now = after(asked, without_luck(n));
            let next = now.next(FetchEvent::Pulled { had: false });
            &&& fetch.next(FetchEvent::Looked { here: false, peers }).1 == (FetchStep::Pull {
                file: fetch.file,
                peer: 0,
            })
            &&& now == (Fetch { peer: n as usize, peers, ..fetch })
            &&& n + 1 < peers ==> next.1 == (FetchStep::Pull {
                file: fetch.file,
                peer: (n + 1) as usize,
            })
            &&& n + 1 == peers && fetch.attempt < RETRIES ==> next.1 is Wait && next.0.file == 0
                && next.0.attempt == fetch.attempt + 1
            &&& n + 1 == peers && fetch.attempt == RETRIES ==> next.1 == FetchStep::Fail(
                FetchError::Unavailable { file: fetch.file },
            )
        }),
    decreases n,
{
    let asked = fetch.next(FetchEvent::Looked { here: false, peers }).0;
    if n > 0 {
        a_file_is_asked_of_every_peer(fetch, peers, (n - 1) as nat);
        assert(without_luck(n).drop_last() =~= without_luck((n - 1) as nat));
        assert(without_luck(n).last() == (FetchEvent::Pulled { had: false }));
    } else {
        assert(without_luck(n) =~= Seq::<FetchEvent>::empty());
    }
}


} // verus!
