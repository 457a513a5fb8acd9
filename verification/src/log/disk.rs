//! Persistence of the log: one file per entry, under `history/`.
//!
//! A file per entry rather than one index: adding and dropping entries are then
//! a create and an unlink, with no file to rewrite and nothing to repair after
//! a crash. A file that fails to decode is one that a crash caught mid-write;
//! it is deleted rather than mourned.
//!
//! What is decided here is which file is written with what, and what is made of
//! a file read back. Whoever holds the directory does it, in order, so an
//! unlink can never overtake the write it undoes.

use crate::files;
use crate::files::join;
use crate::log;
use crate::log::{EndpointId, Entry, EntryId, Hlc, WireEntry};
use crate::word::Word;
use vstd::prelude::*;

verus! {

/// Schema of the files in this directory.
pub const VERSION: u32 = 1;

/// The file that says which schema the others follow.
pub const META: &'static str = "meta.json";

/// The postcard encoding of an entry on the wire and on the disk.
pub uninterp spec fn wire_encoding(
    key: Seq<u8>,
    seq: u64,
    millis: u64,
    counter: u16,
    payload: Seq<u8>,
) -> Seq<u8>;

/// The entry that some bytes begin with: the public key, the sequence, the
/// clock and the payload.
pub uninterp spec fn decoded_wire(bytes: Seq<u8>) -> Option<(Seq<u8>, u64, u64, u16, Seq<u8>)>;

/// `postcard::to_stdvec`, on the plain values of an entry. Decoding what it
/// gives gives them back when the key is a public key.
#[verifier::external_body]
fn encode_wire(key: &[u8; 32], seq: u64, millis: u64, counter: u16, payload: &[u8]) -> (bytes: Vec<
    u8,
>)
    ensures
        bytes@ == wire_encoding(key@, seq, millis, counter, payload@),
        log::is_public_key(key@) ==> decoded_wire(bytes@) == Some(
            (key@, seq, millis, counter, payload@),
        ),
{
    postcard::to_stdvec(&((key, seq), (millis, counter), payload)).expect("an entry is serializable")
}

/// `postcard::from_bytes`, for an `iroh::EndpointId`, a sequence, a clock and a
/// payload: nothing when the bytes begin with none, or the key is none.
#[verifier::external_body]
fn decode_wire(bytes: &[u8]) -> (parts: Option<([u8; 32], u64, u64, u16, Vec<u8>)>)
    ensures
        match parts {
            Some(parts) => decoded_wire(bytes@) == Some(
                (parts.0@, parts.1, parts.2, parts.3, parts.4@),
            ),
            None => parts is None && decoded_wire(bytes@) is None,
        },
{
    let ((key, seq), (millis, counter), payload) = postcard::from_bytes::<
        ((iroh::EndpointId, u64), (u64, u16), Vec<u8>),
    >(bytes).ok()?;
    Some((*key.as_bytes(), seq, millis, counter, payload))
}

/// An entry on the wire and on the disk, for contracts.
#[verifier::ext_equal]
pub struct WireView {
    pub id: EntryId,
    pub clock: Hlc,
    pub payload: Seq<u8>,
}

impl View for WireEntry {
    type V = WireView;

    open spec fn view(&self) -> WireView {
        WireView { id: self.id, clock: self.clock, payload: self.payload@ }
    }
}

/// The bytes of an entry on the wire and on the disk.
pub open spec fn encoding(wire: WireView) -> Seq<u8> {
    wire_encoding(
        wire.id.origin.key.bytes(),
        wire.id.seq,
        wire.clock.millis,
        wire.clock.counter,
        wire.payload,
    )
}

/// Whether some bytes are read as an entry, or as none.
pub open spec fn reads_as(bytes: Seq<u8>, wire: Option<WireView>) -> bool {
    match decoded_wire(bytes) {
        None => wire is None,
        Some((key, seq, millis, counter, payload)) => {
            &&& wire matches Some(wire)
            &&& wire.id.origin.key.bytes() == key
            &&& wire.id.seq == seq
            &&& wire.clock == (Hlc { millis, counter })
            &&& wire.payload == payload
        },
    }
}

/// An entry there may be.
pub open spec fn wire_view(wire: Option<WireEntry>) -> Option<WireView> {
    match wire {
        Some(wire) => Some(wire@),
        None => None,
    }
}

impl WireEntry {
    /// Encodes the entry, for a peer or for the disk.
    pub fn encode(&self) -> (bytes: Vec<u8>)
        ensures
            bytes@ == encoding(self@),
            log::is_public_key(self@.id.origin.key.bytes()) ==> reads_as(bytes@, Some(self@)),
    {
        let key = self.id.origin.as_bytes();
        encode_wire(
            &key,
            self.id.seq,
            self.clock.millis,
            self.clock.counter,
            self.payload.as_slice(),
        )
    }

    /// Decodes an entry that a peer sent, or that was read back from the disk.
    pub fn decode(bytes: &[u8]) -> (wire: Option<WireEntry>)
        ensures
            reads_as(bytes@, wire_view(wire)),
    {
        match decode_wire(bytes) {
            Some((key, seq, millis, counter, payload)) => {
                let origin = EndpointId::from_bytes(&key);
                Some(
                    WireEntry { id: EntryId { origin, seq }, clock: Hlc { millis, counter }, payload },
                )
            },
            None => None,
        }
    }
}

/// One change to the history directory.
#[derive(Debug)]
pub enum Op {
    /// Write a file.
    Store(Vec<u8>, Vec<u8>),
    /// Remove a file. A missing one is fine: the entry was never persisted.
    Forget(Vec<u8>),
}

/// One change to the history directory, for contracts.
pub enum OpView {
    Store(Seq<u8>, Seq<u8>),
    Forget(Seq<u8>),
}

impl View for Op {
    type V = OpView;

    open spec fn view(&self) -> OpView {
        match *self {
            Op::Store(path, bytes) => OpView::Store(path@, bytes@),
            Op::Forget(path) => OpView::Forget(path@),
        }
    }
}

/// Where an entry is persisted.
pub open spec fn file_of(dir: Seq<u8>, id: EntryId) -> Seq<u8> {
    files::joined(dir, vstd::utf8::encode_utf8(id.file_text()))
}

/// The entry as it lands on the disk.
pub open spec fn persisted(entry: Entry) -> WireView {
    WireView { id: entry.id, clock: entry.clock, payload: entry.bytes() }
}

/// What persisting an entry comes to. An entry that may not touch the disk is
/// dropped, which is the single point where secrecy turns into "never touches
/// the disk".
pub open spec fn storing(dir: Seq<u8>, entry: Entry) -> Option<OpView> {
    if entry.durable {
        Some(OpView::Store(file_of(dir, entry.id), encoding(persisted(entry))))
    } else {
        None
    }
}

/// The disk side of the log.
#[derive(Debug)]
pub struct Writer {
    pub dir: Vec<u8>,
}

impl Writer {
    /// The change that persists an entry, if it may be persisted.
    pub fn store(&self, entry: &Entry) -> (op: Option<Op>)
        ensures
            match op {
                Some(op) => storing(self.dir@, *entry) == Some(op@),
                None => storing(self.dir@, *entry) is None,
            },
            op is Some && log::is_public_key(entry.id.origin.key.bytes()) ==> reads_as(
                encoding(persisted(*entry)),
                Some(persisted(*entry)),
            ),
    {
        if !entry.durable {
            return None;
        }
        let name = entry.id.file_name();
        let path = join(self.dir.as_slice(), name.as_str().as_bytes());
        let wire = WireEntry::from(entry);
        assert(wire@ =~= persisted(*entry));
        Some(Op::Store(path, wire.encode()))
    }

    /// The change that removes an entry's file.
    pub fn forget(&self, id: EntryId) -> (op: Op)
        ensures
            op@ == OpView::Forget(file_of(self.dir@, id)),
    {
        let name = id.file_name();
        Op::Forget(join(self.dir.as_slice(), name.as_str().as_bytes()))
    }
}

/// Whether a file of the directory is that of an entry, by its name: it ends
/// in `.entry`, with something before that.
pub fn is_entry(name: &[u8]) -> (r: bool)
    ensures
        r == names_entry(name@),
{
    let n: usize = name.len();
    if n <= 6 {
        return false;
    }
    let r: bool = name[n - 6] == 0x2e && name[n - 5] == 0x65 && name[n - 4] == 0x6e && name[n - 3]
        == 0x74 && name[n - 2] == 0x72 && name[n - 1] == 0x79;
    proof {
        let ending = seq![0x2eu8, 0x65u8, 0x6eu8, 0x74u8, 0x72u8, 0x79u8];
        let tail = name@.skip(n - 6);
        assert(tail[0] == name@[n - 6] && tail[1] == name@[n - 5] && tail[2] == name@[n - 4]
            && tail[3] == name@[n - 3] && tail[4] == name@[n - 2] && tail[5] == name@[n - 1]);
        if r {
            assert(tail =~= ending);
        }
        if tail == ending {
            assert(tail[0] == ending[0] && tail[1] == ending[1] && tail[2] == ending[2] && tail[3]
                == ending[3] && tail[4] == ending[4] && tail[5] == ending[5]);
        }
    }
    r
}

/// A file of the history directory: its name, and what it holds when that can
/// be read.
#[derive(Debug)]
pub struct HistoryFile {
    pub name: Vec<u8>,
    pub bytes: Option<Vec<u8>>,
}

/// Whether a name is that of an entry's file.
pub open spec fn names_entry(name: Seq<u8>) -> bool {
    name.len() > 6 && name.skip(name.len() - 6) == seq![
        0x2eu8,
        0x65u8,
        0x6eu8,
        0x74u8,
        0x72u8,
        0x79u8,
    ]
}

/// Whether a file holds an entry.
pub open spec fn holds_entry(file: HistoryFile) -> bool {
    file.bytes matches Some(bytes) && decoded_wire(bytes@) is Some
}

/// The places of the files to be read that hold an entry, or that hold none.
pub open spec fn sorted_out(files: Seq<HistoryFile>, hold: bool) -> Seq<int>
    decreases files.len(),
{
    if files.len() == 0 {
        Seq::empty()
    } else {
        let before = sorted_out(files.drop_last(), hold);
        if names_entry(files.last().name@) && holds_entry(files.last()) == hold {
            before.push(files.len() - 1)
        } else {
            before
        }
    }
}

/// Reads back every entry of the directory, and says which files to discard: a
/// file written by a crashed daemon, or by another version, is one clipboard
/// entry, to be dropped rather than to refuse to start for.
pub fn load(files: &Vec<HistoryFile>) -> (loaded: (Vec<WireEntry>, Vec<usize>))
    ensures
        loaded.0@.len() == sorted_out(files@, true).len(),
        forall|i: int|
            0 <= i < loaded.0@.len() ==> reads_as(
                files@[sorted_out(files@, true)[i]].bytes->0@,
                Some((#[trigger] loaded.0@[i])@),
            ),
        loaded.1@.map_values(|place: usize| place as int) == sorted_out(files@, false),
{
    let mut entries: Vec<WireEntry> = Vec::new();
    let mut discard: Vec<usize> = Vec::new();
    let mut i: usize = 0;
    assert(files@.take(0) =~= Seq::empty());
    assert(discard@.map_values(|place: usize| place as int) =~= Seq::empty());
    while i < files.len()
        invariant
            i <= files.len(),
            entries@.len() == sorted_out(files@.take(i as int), true).len(),
            forall|j: int|
                0 <= j < entries@.len() ==> reads_as(
                    files@[sorted_out(files@.take(i as int), true)[j]].bytes->0@,
                    Some((#[trigger] entries@[j])@),
                ),
            discard@.map_values(|place: usize| place as int) == sorted_out(
                files@.take(i as int),
                false,
            ),
        decreases files.len() - i,
    {
        let ghost more = files@.take(i + 1);
        assert(more.drop_last() =~= files@.take(i as int));
        assert(more.last() == files@[i as int]);
        if is_entry(files[i].name.as_slice()) {
            let read: Option<WireEntry> = match &files[i].bytes {
                Some(bytes) => WireEntry::decode(bytes.as_slice()),
                None => None,
            };
            match read {
                Some(entry) => {
                    entries.push(entry);
                },
                None => {
                    let ghost before = discard@.map_values(|place: usize| place as int);
                    discard.push(i);
                    assert(discard@.map_values(|place: usize| place as int) =~= before.push(
                        i as int,
                    ));
                },
            }
        }
        i += 1;
    }
    assert(files@.take(i as int) =~= files@);
    (entries, discard)
}

/// What the directory says of its schema.
#[derive(Clone, Copy, Debug, PartialEq, Eq, Structural)]
pub enum Marker {
    /// Nothing: it is the history of a build without a schema, or none at all.
    Missing,
    /// That it follows this version.
    Version(u32),
}

/// What is done about the directory before it is read.
#[derive(Clone, Copy, Debug, PartialEq, Eq, Structural)]
pub enum Preparation {
    /// It is read as it is.
    Keep,
    /// It is started clean: whatever is there goes, and the schema is marked.
    StartClean,
    /// It is left alone: its schema is newer than this build.
    Refuse(u32),
}

/// Makes the history directory match this build's schema.
pub fn prepare(marker: Marker) -> (preparation: Preparation)
    ensures
        preparation == (match marker {
            Marker::Missing => Preparation::StartClean,
            Marker::Version(version) => if version == VERSION {
                Preparation::Keep
            } else {
                Preparation::Refuse(version)
            },
        }),
{
    match marker {
        Marker::Missing => Preparation::StartClean,
        Marker::Version(version) => if version == VERSION {
            Preparation::Keep
        } else {
            Preparation::Refuse(version)
        },
    }
}

/// What is written of an entry is read back as that entry.
pub proof fn entries_survive_a_round_trip(dir: Seq<u8>, entry: Entry, back: Option<WireView>)
    requires
        entry.durable,
        reads_as(encoding(persisted(entry)), Some(persisted(entry))),
        reads_as(encoding(persisted(entry)), back),
    ensures
        storing(dir, entry) == Some(
            OpView::Store(file_of(dir, entry.id), encoding(persisted(entry))),
        ),
        back == Some(persisted(entry)),
{
    let wire = back->0;
    Word::lemma_bytes_name_the_word(wire.id.origin.key, entry.id.origin.key);
    assert(wire =~= persisted(entry));
}

/// An entry that may not touch the disk never does.
pub proof fn a_secret_entry_never_reaches_the_disk(dir: Seq<u8>, entry: Entry)
    requires
        !entry.durable,
    ensures
        storing(dir, entry) is None,
{
}

/// Every file of the directory that is named as an entry is read or discarded,
/// each once and in order: read when it holds an entry, and discarded when it
/// holds none. No other file is touched.
pub proof fn every_file_of_an_entry_is_read_or_discarded(
    files: Seq<HistoryFile>,
    hold: bool,
    n: int,
)
    ensures
        sorted_out(files, hold).contains(n) <==> 0 <= n < files.len() && names_entry(
            files[n].name@,
        ) && holds_entry(files[n]) == hold,
        forall|i: int, j: int|
            0 <= i < j < sorted_out(files, hold).len() ==> #[trigger] sorted_out(files, hold)[i]
                < #[trigger] sorted_out(files, hold)[j],
        forall|i: int|
            0 <= i < sorted_out(files, hold).len() ==> 0 <= #[trigger] sorted_out(files, hold)[i]
                < files.len(),
    decreases files.len(),
{
    let all = sorted_out(files, hold);
    if files.len() > 0 {
        let rest = files.drop_last();
        every_file_of_an_entry_is_read_or_discarded(rest, hold, n);
        let before = sorted_out(rest, hold);
        if before.contains(n) {
            let k = choose|k: int| 0 <= k < before.len() && before[k] == n;
            assert(all[k] == n);
        }
        if all.contains(n) {
            let k = choose|k: int| 0 <= k < all.len() && all[k] == n;
            if k < before.len() {
                assert(before[k] == n);
            }
        }
        if all.len() > before.len() {
            assert(all[before.len() as int] == files.len() - 1);
            assert(files[files.len() - 1] == files.last());
        }
        if n == files.len() - 1 {
            assert(files[n] == files.last());
        }
    }
}


} // verus!
