//! The replicated log: what machines actually exchange.
//!
//! Every machine writes entries under its own identity, numbered from one
//! and never reused. An entry is therefore named by `(origin, seq)` for all
//! time, on every machine, which is what makes replication idempotent:
//! receiving one twice is a no-op, and there is nothing to reconcile.
//!
//! ```text
//! A ── summary: have {A:12, B:7} ──────────────────► B   (announce)
//! A ◄─ fetch: since {A:9, B:7} ─────────────────────  B   (pull)
//! A ── entry A:10, A:11, A:12, end {A:12, B:7} ────► B
//! ```
//!
//! The log is deliberately **bounded and lossy**. Entries expire, and the
//! oldest are evicted once the caps are reached, so a peer may hold no copy
//! of an entry we never saw. A watermark therefore advances past gaps: it
//! records the highest sequence *seen*, not a contiguous prefix.
//!
//! Nothing here knows what an entry means. The payload is an opaque blob a
//! topic encodes and decodes; the caller decides whether an entry may touch
//! the disk.

pub mod clock;
pub mod disk;
pub mod store;


pub use clock::{Clock, Hlc};
pub use store::{Change, Checkpoint, Limits, Log, LogError, LogState};


use crate::encoding;
use crate::encoding::base32_encode;
use crate::ordmap;
use crate::ordmap::{OrdMap, Place, Ranked};
use crate::text;
use crate::text::{chars_of, decimal};
use crate::word::Word;
use std::sync::Arc;
use vstd::prelude::*;

verus! {

/// Hard ceiling on one entry's payload, enforced before anything is decoded
/// or stored. The user-facing cap in `config.toml` sits under it.
///
/// A `u32` because it also bounds a wire frame, where the length prefix is
/// one.
pub const MAX_ENTRY_BYTES: u32 = 4_194_304;

/// Whether some bytes are those of a public key.
pub uninterp spec fn is_public_key(bytes: Seq<u8>) -> bool;

/// `iroh::EndpointId::from_bytes` accepts the bytes exactly when they are those
/// of a public key, which depends on the bytes alone.
#[verifier::external_body]
fn check_public_key(bytes: &[u8; 32]) -> (valid: bool)
    ensures
        valid == is_public_key(bytes@),
{
    iroh::EndpointId::from_bytes(bytes).is_ok()
}

/// The name of a machine: the thirty-two bytes of its public key.
#[derive(Clone, Copy, Debug, PartialEq, Eq, Structural)]
pub struct EndpointId {
    pub key: Word,
}

impl EndpointId {
    /// The machine with this public key.
    pub fn from_bytes(bytes: &[u8; 32]) -> (id: EndpointId)
        ensures
            id.key.bytes() == bytes@,
    {
        EndpointId { key: Word::from_bytes(bytes) }
    }

    /// The machine with this public key, or none when it is no public key.
    pub fn from_public_key(bytes: &[u8; 32]) -> (id: Option<EndpointId>)
        ensures
            match id {
                Some(id) => is_public_key(bytes@) && id.key.bytes() == bytes@,
                None => !is_public_key(bytes@),
            },
    {
        if check_public_key(bytes) {
            Some(EndpointId { key: Word::from_bytes(bytes) })
        } else {
            None
        }
    }

    /// The public key of the machine.
    pub fn as_bytes(&self) -> (bytes: [u8; 32])
        ensures
            bytes@ == self.key.bytes(),
    {
        self.key.to_bytes()
    }
}

impl EndpointId {
    /// The public key of the machine in base16, which is how a person sees it.
    pub fn text(&self) -> (text: String)
        ensures
            text@ == encoding::hex(self.key.bytes()),
    {
        proof {
            self.key.lemma_bytes();
        }
        let bytes = self.key.to_bytes();
        encoding::hex_encode(bytes.as_slice())
    }
}

impl Ranked for EndpointId {
    open spec fn rank(self) -> int {
        self.key.rank()
    }

    proof fn rank_is_unique(a: Self, b: Self) {
        Word::rank_is_unique(a.key, b.key);
    }

    fn place(&self, other: &Self) -> (place: Place) {
        self.key.place(&other.key)
    }
}

/// The name of an entry, unique across the mesh and stable forever.
///
/// Ordered by origin then sequence, which is the order the store keeps
/// entries in and the order a fetch serves them in.
#[derive(Clone, Copy, Debug, PartialEq, Eq, Structural)]
pub struct EntryId {
    /// The machine that wrote the entry.
    pub origin: EndpointId,
    /// Its position in that machine's log, counted from one.
    pub seq: u64,
}

impl Ranked for EntryId {
    open spec fn rank(self) -> int {
        self.origin.rank() * 0x1_0000_0000_0000_0000 + self.seq
    }

    proof fn rank_is_unique(a: Self, b: Self) {
        assert(a.origin.rank() == b.origin.rank());
        EndpointId::rank_is_unique(a.origin, b.origin);
    }

    fn place(&self, other: &Self) -> (place: Place) {
        match self.origin.place(&other.origin) {
            Place::Before => Place::Before,
            Place::After => Place::After,
            Place::Same => if self.seq < other.seq {
                Place::Before
            } else if self.seq == other.seq {
                Place::Same
            } else {
                Place::After
            },
        }
    }
}

/// How many entry names there are: two to the power of three hundred and
/// twenty.
pub open spec fn names() -> int {
    0x1_0000_0000_0000_0000_0000_0000_0000_0000_0000_0000_0000_0000_0000_0000_0000_0000_0000_0000_0000_0000int
}

/// A place in the total order over entries: the clock first, the name to
/// break ties.
#[derive(Clone, Copy, Debug, PartialEq, Eq, Structural)]
pub struct OrderKey {
    pub clock: Hlc,
    pub id: EntryId,
}

impl Ranked for OrderKey {
    open spec fn rank(self) -> int {
        self.clock.rank() * names() + self.id.rank()
    }

    proof fn rank_is_unique(a: Self, b: Self) {
        assert(a.clock.rank() == b.clock.rank() && a.id.rank() == b.id.rank());
        Hlc::rank_is_unique(a.clock, b.clock);
        EntryId::rank_is_unique(a.id, b.id);
    }

    fn place(&self, other: &Self) -> (place: Place) {
        match self.clock.place(&other.clock) {
            Place::Before => Place::Before,
            Place::After => Place::After,
            Place::Same => self.id.place(&other.id),
        }
    }
}

/// The base32 text of a machine's name, in lower case.
pub open spec fn origin_text(origin: EndpointId) -> Seq<char> {
    text::lowered(encoding::base32(origin.key.bytes()))
}

impl EntryId {
    /// The text of [`Self::label`].
    pub open spec fn label_text(self) -> Seq<char> {
        origin_text(self.origin).take(6).push('-') + text::decimal_digits(self.seq as nat)
    }

    /// The text of [`Self::file_name`].
    pub open spec fn file_text(self) -> Seq<char> {
        let digits = text::decimal_digits(self.seq as nat);
        origin_text(self.origin).push('-') + Seq::new(
            (20 - digits.len()) as nat,
            |i: int| '0',
        ) + digits + seq!['.', 'e', 'n', 't', 'r', 'y']
    }

    /// The short form shown to users and accepted (by prefix) by commands
    /// taking an entry: six characters of the origin, then the sequence.
    pub fn label(&self) -> (label: String)
        ensures
            label@ == self.label_text(),
    {
        let origin = self.origin_chars();
        let mut label = String::new();
        let mut i: usize = 0;
        while i < 6
            invariant
                i <= 6,
                origin@.len() == 52,
                label@ == origin@.take(i as int),
            decreases 6 - i,
        {
            label.push(origin[i]);
            i += 1;
            assert(label@ =~= origin@.take(i as int));
        }
        label.push('-');
        let seq = decimal(self.seq as u128);
        label.append(seq.as_str());
        label
    }

    /// The file name the entry is persisted under, unique per entry and
    /// stable across restarts.
    pub fn file_name(&self) -> (name: String)
        ensures
            name@ == self.file_text(),
    {
        let origin = self.origin_chars();
        let mut name = text::text_of(origin.as_slice());
        name.push('-');
        let digits = decimal(self.seq as u128);
        proof {
            text::lemma_decimal_len(self.seq as nat, 20);
        }
        let ghost head = name@;
        let seq = chars_of(digits.as_str());
        let mut zeros: usize = 20 - seq.len();
        let ghost all = zeros as nat;
        while zeros > 0
            invariant
                zeros <= all,
                name@ == head + Seq::new((all - zeros) as nat, |i: int| '0'),
            decreases zeros,
        {
            name.push('0');
            zeros -= 1;
            assert(name@ =~= head + Seq::new((all - zeros) as nat, |i: int| '0'));
        }
        name.append(digits.as_str());
        name.push('.');
        name.push('e');
        name.push('n');
        name.push('t');
        name.push('r');
        name.push('y');
        assert(name@ =~= self.file_text());
        name
    }

    /// The characters of the origin's name.
    fn origin_chars(&self) -> (chars: Vec<char>)
        ensures
            chars@ == origin_text(self.origin),
            chars@.len() == 52,
    {
        proof {
            self.origin.key.lemma_bytes();
        }
        let bytes = self.origin.as_bytes();
        let name = base32_encode(bytes.as_slice());
        text::lower_chars(name.as_str())
    }
}

/// The bytes of an entry.
///
/// Shared rather than copied, since the same megabyte goes to peers, to the
/// disk writer and to the clipboard backend at once, and wiped when the last
/// holder lets go: the store is where a copied password lives longest.
///
/// `zeroize::Zeroizing` is bound by a trait of its own crate, so what it holds
/// is known through [`payload_bytes`] alone.
#[verifier::external_body]
#[derive(Debug)]
pub struct Payload {
    bytes: Arc<zeroize::Zeroizing<Vec<u8>>>,
}

/// The bytes that a payload holds.
pub uninterp spec fn payload_bytes(payload: Payload) -> Seq<u8>;

/// The payload that some bytes are wrapped as.
pub uninterp spec fn payload_of(bytes: Seq<u8>) -> Payload;

/// Whether some bytes read back as they were once they are wrapped as a payload.
pub open spec fn intact(bytes: Seq<u8>) -> bool {
    payload_bytes(payload_of(bytes)) == bytes
}

/// Wraps bytes as a payload, taking ownership of the buffer.
///
/// `zeroize::Zeroizing::new` keeps the buffer as it is, to be wiped when it is
/// dropped. Payloads of the same bytes are one and the same as far as anything
/// here can tell. That the wiping takes place is not part of the claim.
#[verifier::external_body]
pub fn payload(bytes: Vec<u8>) -> (payload: Payload)
    ensures
        payload == payload_of(bytes@),
        payload_bytes(payload) == bytes@,
{
    Payload { bytes: Arc::new(zeroize::Zeroizing::new(bytes)) }
}

impl Payload {
    /// `zeroize::Zeroizing` dereferences to the buffer it keeps: the bytes
    /// the payload holds.
    #[verifier::external_body]
    pub(crate) fn slice(&self) -> (slice: &[u8])
        ensures
            slice@ == payload_bytes(*self),
    {
        self.bytes.as_slice()
    }

    /// `Arc::clone` gives another holder of the same `zeroize::Zeroizing`
    /// buffer: the same payload.
    #[verifier::external_body]
    pub(crate) fn share(&self) -> (other: Payload)
        ensures
            other == *self,
    {
        Payload { bytes: Arc::clone(&self.bytes) }
    }

    /// The bytes the payload holds.
    pub fn as_slice(&self) -> (slice: &[u8])
        ensures
            slice@ == payload_bytes(*self),
    {
        self.slice()
    }
}

impl Clone for Payload {
    fn clone(&self) -> (other: Self)
        ensures
            other == *self,
    {
        self.share()
    }
}

/// An entry as the store holds it.
#[derive(Debug)]
pub struct Entry {
    pub id: EntryId,
    /// When its author wrote it, on the mesh-wide clock.
    pub clock: Hlc,
    /// The topic's encoding of the event.
    pub payload: Payload,
    /// Whether this entry may be written to disk. Decided by the topic: a
    /// secret clipboard entry never is.
    pub durable: bool,
}

impl Clone for Entry {
    fn clone(&self) -> (other: Self)
        ensures
            other == *self,
    {
        Entry {
            id: self.id,
            clock: self.clock,
            payload: self.payload.share(),
            durable: self.durable,
        }
    }
}

impl Entry {
    /// The bytes of the entry.
    pub open spec fn bytes(self) -> Seq<u8> {
        payload_bytes(self.payload)
    }

    /// The place of the entry in the total order over entries.
    pub open spec fn order(self) -> int {
        (OrderKey { clock: self.clock, id: self.id }).rank()
    }

    /// The total order over entries: the clock first, the id to break ties,
    /// so every machine sorts the history identically.
    pub fn order_key(&self) -> (key: OrderKey)
        ensures
            key == (OrderKey { clock: self.clock, id: self.id }),
            key.rank() == self.order(),
    {
        OrderKey { clock: self.clock, id: self.id }
    }
}

/// An entry as it crosses the wire and lands on the disk.
#[derive(Debug)]
pub struct WireEntry {
    pub id: EntryId,
    pub clock: Hlc,
    pub payload: Vec<u8>,
}

/// Whether what some entries carry reads back as it was once it is in the log.
pub open spec fn all_intact(wires: Seq<WireEntry>) -> bool {
    forall|i: int| 0 <= i < wires.len() ==> intact((#[trigger] wires[i]).payload@)
}

impl Clone for WireEntry {
    fn clone(&self) -> (other: Self)
        ensures
            other.id == self.id,
            other.clock == self.clock,
            other.payload@ == self.payload@,
    {
        WireEntry {
            id: self.id,
            clock: self.clock,
            payload: vstd::slice::slice_to_vec(self.payload.as_slice()),
        }
    }
}

impl WireEntry {
    /// Whether this is how an entry crosses the wire.
    pub open spec fn carries(self, entry: Entry) -> bool {
        &&& self.id == entry.id
        &&& self.clock == entry.clock
        &&& self.payload@ == entry.bytes()
    }

    /// The entry as it crosses the wire.
    pub fn from(entry: &Entry) -> (wire: WireEntry)
        ensures
            wire.carries(*entry),
    {
        WireEntry {
            id: entry.id,
            clock: entry.clock,
            payload: vstd::slice::slice_to_vec(entry.payload.slice()),
        }
    }
}

/// How far a machine has got in every origin's log: the highest sequence it
/// holds or has knowingly skipped.
///
/// Announced to say what we have, and sent back in a fetch to say what we
/// want. Origins absent from the map are at zero.
pub struct Watermark {
    marks: OrdMap<EndpointId, u64>,
}

impl View for Watermark {
    type V = Map<EndpointId, u64>;

    closed spec fn view(&self) -> Map<EndpointId, u64> {
        self.marks@
    }
}

/// How far some marks are in an origin's log.
pub open spec fn mark_at(marks: Map<EndpointId, u64>, origin: EndpointId) -> u64 {
    if marks.contains_key(origin) {
        marks[origin]
    } else {
        0
    }
}

/// Some marks once an origin has moved forward to a sequence.
pub open spec fn advanced(
    marks: Map<EndpointId, u64>,
    origin: EndpointId,
    seq: u64,
) -> Map<EndpointId, u64> {
    marks.insert(
        origin,
        if seq > mark_at(marks, origin) {
            seq
        } else {
            mark_at(marks, origin)
        },
    )
}

/// Whether some marks are ahead of others in any log.
pub open spec fn ahead(ours: Map<EndpointId, u64>, theirs: Map<EndpointId, u64>) -> bool {
    exists|origin: EndpointId|
        #[trigger] ours.contains_key(origin) && ours[origin] > mark_at(theirs, origin)
}

impl Default for Watermark {
    fn default() -> (mark: Self)
        ensures
            mark.wf(),
            mark@ == Map::<EndpointId, u64>::empty(),
    {
        Watermark { marks: OrdMap::new() }
    }
}

impl Watermark {
    /// Whether the marks are in order, each origin once.
    pub closed spec fn wf(&self) -> bool {
        self.marks.wf()
    }

    /// How far we are in `origin`'s log; zero when we hold nothing of it.
    pub fn get(&self, origin: &EndpointId) -> (seq: u64)
        requires
            self.wf(),
        ensures
            seq == mark_at(self@, *origin),
    {
        match self.marks.get(origin) {
            Some(seq) => *seq,
            None => 0,
        }
    }

    /// Moves an origin forward, never backwards. Returns whether it moved.
    pub fn advance(&mut self, origin: EndpointId, seq: u64) -> (moved: bool)
        requires
            old(self).wf(),
        ensures
            final(self).wf(),
            final(self)@ == advanced(old(self)@, origin, seq),
            moved == (seq > mark_at(old(self)@, origin)),
    {
        let current: u64 = self.get(&origin);
        let moved: bool = seq > current;
        self.marks.insert(
            origin,
            if moved {
                seq
            } else {
                current
            },
        );
        moved
    }

    /// Whether this watermark holds anything `other` does not, which is the
    /// whole question a received announcement has to answer.
    pub fn outruns(&self, other: &Watermark) -> (r: bool)
        requires
            self.wf(),
            other.wf(),
        ensures
            r == ahead(self@, other@),
    {
        let n: usize = self.marks.len();
        let mut i: usize = 0;
        proof {
            self.marks.lemma_pairs();
        }
        while i < n
            invariant
                i <= n,
                n == self.marks.pairs().len(),
                self.wf(),
                other.wf(),
                forall|j: int|
                    0 <= j < i ==> (#[trigger] self.marks.pairs()[j]).1 <= mark_at(
                        other@,
                        self.marks.pairs()[j].0,
                    ),
            decreases n - i,
        {
            let origin = self.marks.key_at(i);
            let seq: u64 = *self.marks.value_at(i);
            if seq > other.get(&origin) {
                proof {
                    self.marks.lemma_pairs();
                    assert(self@.contains_key(origin));
                }
                return true;
            }
            i += 1;
        }
        assert forall|origin: EndpointId| #[trigger] self@.contains_key(origin) implies self@[origin]
            <= mark_at(other@, origin) by {
            self.marks.lemma_pairs();
            let j = choose|j: int|
                0 <= j < self.marks.pairs().len() && (#[trigger] self.marks.pairs()[j]) == (
                    origin,
                    self@[origin],
                );
            assert(self.marks.pairs()[j].1 <= mark_at(other@, origin));
        }
        false
    }

    /// How many origins it mentions, for the caps applied on receipt.
    pub fn origins(&self) -> (n: usize)
        requires
            self.wf(),
        ensures
            n == self@.len(),
            self@.dom().finite(),
    {
        self.marks.len()
    }

    /// The marks, in the order of the origins.
    pub closed spec fn pairs(&self) -> Seq<(EndpointId, u64)> {
        self.marks.pairs()
    }

    /// The marks, in the order of the origins, each origin once.
    pub fn marks(&self) -> (list: Vec<(EndpointId, u64)>)
        requires
            self.wf(),
        ensures
            list@ == self.pairs(),
            ordmap::ascending(list@),
            self@ == ordmap::map_of(list@),
    {
        proof {
            self.marks.lemma_pairs();
        }
        let n: usize = self.marks.len();
        let mut list: Vec<(EndpointId, u64)> = Vec::new();
        let mut i: usize = 0;
        while i < n
            invariant
                i <= n,
                n == self.marks.pairs().len(),
                list@ == self.marks.pairs().take(i as int),
            decreases n - i,
        {
            list.push((self.marks.key_at(i), *self.marks.value_at(i)));
            i += 1;
            assert(list@ =~= self.marks.pairs().take(i as int));
        }
        assert(list@ =~= self.pairs());
        list
    }

    /// The marks of a list, the last of an origin counting.
    pub fn collect(list: &[(EndpointId, u64)]) -> (mark: Self)
        ensures
            mark.wf(),
            mark@ == collected(list@),
    {
        let mut marks: OrdMap<EndpointId, u64> = OrdMap::new();
        let mut i: usize = 0;
        assert(list@.take(0) =~= Seq::empty());
        while i < list.len()
            invariant
                i <= list.len(),
                marks.wf(),
                marks@ == collected(list@.take(i as int)),
            decreases list.len() - i,
        {
            let (origin, seq) = list[i];
            marks.insert(origin, seq);
            assert(list@.take(i + 1).drop_last() =~= list@.take(i as int));
            i += 1;
        }
        assert(list@.take(i as int) =~= list@);
        Watermark { marks }
    }

    /// The same marks again.
    pub fn clone(&self) -> (other: Self)
        requires
            self.wf(),
        ensures
            other.wf(),
            other@ == self@,
    {
        let list = self.marks();
        let mut marks: OrdMap<EndpointId, u64> = OrdMap::new();
        let mut i: usize = 0;
        assert(ordmap::map_of(list@.take(0)) =~= Map::<EndpointId, u64>::empty());
        while i < list.len()
            invariant
                i <= list.len(),
                marks.wf(),
                ordmap::ascending(list@),
                marks@ == ordmap::map_of(list@.take(i as int)),
            decreases list.len() - i,
        {
            let (origin, seq) = list[i];
            marks.insert(origin, seq);
            proof {
                ordmap::lemma_map_of_push(list@.take(i as int), list@[i as int]);
                assert(list@.take(i as int).push(list@[i as int]) =~= list@.take(i + 1));
            }
            i += 1;
        }
        assert(list@.take(i as int) =~= list@);
        Watermark { marks }
    }
}

/// The marks of a list, the last of an origin counting.
pub open spec fn collected(list: Seq<(EndpointId, u64)>) -> Map<EndpointId, u64>
    decreases list.len(),
{
    if list.len() == 0 {
        Map::empty()
    } else {
        collected(list.drop_last()).insert(list.last().0, list.last().1)
    }
}

/// A watermark that has moved forward is nowhere behind where it was.
pub proof fn watermarks_only_move_forward(
    marks: Map<EndpointId, u64>,
    origin: EndpointId,
    seq: u64,
    other: EndpointId,
)
    ensures
        mark_at(marks, other) <= mark_at(advanced(marks, origin, seq), other),
        seq <= mark_at(advanced(marks, origin, seq), origin),
        other != origin ==> mark_at(advanced(marks, origin, seq), other) == mark_at(marks, other),
{
}

/// Some marks are ahead of others exactly when they are further in the log of
/// some machine; marks are never ahead of themselves, and once they have taken
/// in what others are ahead in they are no longer behind there.
pub proof fn marks_are_ahead_where_they_are_further(
    ours: Map<EndpointId, u64>,
    theirs: Map<EndpointId, u64>,
    origin: EndpointId,
    seq: u64,
)
    ensures
        mark_at(ours, origin) > mark_at(theirs, origin) ==> ahead(ours, theirs),
        ahead(ours, theirs) ==> exists|other: EndpointId|
            #[trigger] mark_at(ours, other) > mark_at(theirs, other),
        !ahead(ours, ours),
        mark_at(advanced(ours, origin, seq), origin) == (if seq > mark_at(ours, origin) {
            seq
        } else {
            mark_at(ours, origin)
        }),
        !ours.contains_key(origin) ==> mark_at(ours, origin) == 0,
        ours.contains_key(origin) ==> mark_at(ours, origin) == ours[origin],
{
    if mark_at(ours, origin) > mark_at(theirs, origin) {
        assert(ours.contains_key(origin));
    }
    if ahead(ours, theirs) {
        let other = choose|other: EndpointId| #[trigger]
            ours.contains_key(other) && ours[other] > mark_at(theirs, other);
        assert(mark_at(ours, other) > mark_at(theirs, other));
    }
}

/// The label of an entry is six characters of the name of the machine that wrote
/// it, a dash, and the number it wrote it under; so two entries of one machine
/// never have the same.
pub proof fn a_label_names_an_entry(a: EntryId, b: EntryId)
    requires
        a.origin == b.origin,
    ensures
        a.label_text().len() > 7,
        a.label_text().take(6) == origin_text(a.origin).take(6),
        a.label_text()[6] == '-',
        text::number_of(a.label_text().skip(7)) == a.seq,
        a.label_text() == b.label_text() ==> a == b,
{
    a.origin.key.lemma_bytes();
    let name = origin_text(a.origin);
    assert(name.len() == 52);
    text::numbers_are_written_as_they_are_read(a.seq as nat, b.seq as nat);
    let one = a.label_text();
    let two = b.label_text();
    assert(one.take(6) =~= name.take(6));
    assert(one.skip(7) =~= text::decimal_digits(a.seq as nat));
    assert(two.skip(7) =~= text::decimal_digits(b.seq as nat));
}

/// No two entries are kept in one file.
pub proof fn no_two_entries_share_a_file(a: EntryId, b: EntryId)
    requires
        a.file_text() == b.file_text(),
    ensures
        a == b,
{
    a.origin.key.lemma_bytes();
    b.origin.key.lemma_bytes();
    let x = origin_text(a.origin);
    let y = origin_text(b.origin);
    let n = text::decimal_digits(a.seq as nat);
    let m = text::decimal_digits(b.seq as nat);
    text::lemma_decimal_len(a.seq as nat, 20);
    text::lemma_decimal_len(b.seq as nat, 20);
    let one = a.file_text();
    let two = b.file_text();
    assert(one.take(52) =~= x);
    assert(two.take(52) =~= y);
    lemma_same_origin(a.origin, b.origin);
    let zeros = Seq::new((20 - n.len()) as nat, |i: int| '0');
    let more = Seq::new((20 - m.len()) as nat, |i: int| '0');
    assert(one.subrange(53, 73) =~= zeros + n);
    assert(two.subrange(53, 73) =~= more + m);
    lemma_padded(zeros.len(), n);
    lemma_padded(more.len(), m);
    assert(Seq::new(zeros.len(), |i: int| '0') =~= zeros);
    assert(Seq::new(more.len(), |i: int| '0') =~= more);
    text::numbers_are_written_as_they_are_read(a.seq as nat, b.seq as nat);
    text::numbers_are_written_as_they_are_read(b.seq as nat, a.seq as nat);
}

proof fn lemma_padded(zeros: nat, digits: Seq<char>)
    ensures
        text::number_of(Seq::new(zeros, |i: int| '0') + digits) == text::number_of(digits),
    decreases digits.len(), zeros,
{
    let pad = Seq::new(zeros, |i: int| '0');
    if digits.len() == 0 {
        assert(pad + digits =~= pad);
        if zeros > 0 {
            let less = Seq::new((zeros - 1) as nat, |i: int| '0');
            lemma_padded((zeros - 1) as nat, digits);
            assert(less + digits =~= less);
            assert(pad.drop_last() =~= less);
        }
    } else {
        lemma_padded(zeros, digits.drop_last());
        assert((pad + digits).drop_last() =~= pad + digits.drop_last());
    }
}

proof fn lemma_same_origin(a: EndpointId, b: EndpointId)
    requires
        origin_text(a) == origin_text(b),
    ensures
        a == b,
{
    a.key.lemma_bytes();
    b.key.lemma_bytes();
    let x = encoding::base32(a.key.bytes());
    let y = encoding::base32(b.key.bytes());
    assert(x.len() == y.len());
    assert forall|i: int| 0 <= i < x.len() implies x[i] == y[i] by {
        assert(text::lowered(x)[i] == text::lowered(y)[i]);
    }
    assert(x =~= y);
    encoding::lemma_base32_is_unique(a.key.bytes(), b.key.bytes());
    Word::lemma_bytes_name_the_word(a.key, b.key);
}


} // verus!
