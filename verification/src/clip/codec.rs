//! Events as the bytes of a log payload.
//!
//! An event is a variant, by position, and then what the variant carries, in
//! postcard's encoding.

use crate::clip::event;
use crate::clip::event::{CopyView, Event, EventView, Rep, Selection};
use crate::files;
use crate::files::{FileName, FileRef};
use crate::log;
use crate::log::{payload, EndpointId, EntryId, Payload};
use crate::word::Word;
use vstd::prelude::*;

verus! {

/// The position of a copy among the events.
pub const COPY: u32 = 0;

/// The position of a clear among the events.
pub const CLEAR: u32 = 1;

/// The position of a forget among the events.
pub const FORGET: u32 = 2;

/// The position of a purge among the events.
pub const PURGE: u32 = 3;

/// A copy as plain values: the representation that names it, the others,
/// whether it is secret, its lifetime, and the files it names.
pub type CopyParts = (
    (String, Vec<u8>),
    Vec<(String, Vec<u8>)>,
    bool,
    Option<u32>,
    Vec<(String, u64, [u8; 32])>,
);

/// What the plain values of a copy are.
pub type CopyPartsView = (
    (Seq<char>, Seq<u8>),
    Seq<(Seq<char>, Seq<u8>)>,
    bool,
    Option<u32>,
    Seq<(Seq<char>, u64, Seq<u8>)>,
);

/// What the plain values of some representations are.
pub open spec fn pairs_view(pairs: Seq<(String, Vec<u8>)>) -> Seq<(Seq<char>, Seq<u8>)> {
    pairs.map_values(|pair: (String, Vec<u8>)| (pair.0@, pair.1@))
}

/// What the plain values of some files are.
pub open spec fn triples_view(triples: Seq<(String, u64, [u8; 32])>) -> Seq<
    (Seq<char>, u64, Seq<u8>),
> {
    triples.map_values(|triple: (String, u64, [u8; 32])| (triple.0@, triple.1, triple.2@))
}

/// What the plain values of a copy are.
pub open spec fn parts_view(parts: CopyParts) -> CopyPartsView {
    (
        (parts.0.0@, parts.0.1@),
        pairs_view(parts.1@),
        parts.2,
        parts.3,
        triples_view(parts.4@),
    )
}

/// The postcard encoding of a variant and the plain values of a copy.
pub uninterp spec fn copy_encoding(variant: u32, parts: CopyPartsView) -> Seq<u8>;

/// The postcard encoding of a variant, a public key and a sequence.
pub uninterp spec fn name_encoding(variant: u32, key: Seq<u8>, seq: u64) -> Seq<u8>;

/// The postcard encoding of a variant alone.
pub uninterp spec fn variant_encoding(variant: u32) -> Seq<u8>;

/// The variant that some bytes begin with, and how many bytes follow it.
pub uninterp spec fn leading_variant(bytes: Seq<u8>) -> Option<(u32, nat)>;

/// The plain values of a copy that some bytes begin with.
pub uninterp spec fn decoded_copy(bytes: Seq<u8>) -> Option<CopyPartsView>;

/// The public key and the sequence that some bytes begin with.
pub uninterp spec fn decoded_name(bytes: Seq<u8>) -> Option<(Seq<u8>, u64)>;

/// `postcard::to_stdvec`, on a variant and a copy. Decoding what it gives,
/// first the variant and then the copy, gives them back.
#[verifier::external_body]
fn encode_copy(variant: u32, parts: &CopyParts) -> (bytes: Vec<u8>)
    ensures
        bytes@ == copy_encoding(variant, parts_view(*parts)),
        leading_variant(bytes@) is Some,
        (leading_variant(bytes@)->0).0 == variant,
        (leading_variant(bytes@)->0).1 <= bytes@.len(),
        decoded_copy(bytes@.skip(bytes@.len() - (leading_variant(bytes@)->0).1)) == Some(
            parts_view(*parts),
        ),
{
    postcard::to_stdvec(&(variant, parts)).expect("a copy is serializable")
}

/// `postcard::to_stdvec`, on a variant, the bytes of a public key, and a
/// sequence. Decoding what it gives gives the variant back, and then the key
/// and the sequence when the bytes are those of a key.
#[verifier::external_body]
fn encode_name(variant: u32, key: &[u8; 32], seq: u64) -> (bytes: Vec<u8>)
    ensures
        bytes@ == name_encoding(variant, key@, seq),
        leading_variant(bytes@) is Some,
        (leading_variant(bytes@)->0).0 == variant,
        (leading_variant(bytes@)->0).1 <= bytes@.len(),
        log::is_public_key(key@) ==> decoded_name(
            bytes@.skip(bytes@.len() - (leading_variant(bytes@)->0).1),
        ) == Some((key@, seq)),
{
    postcard::to_stdvec(&(variant, key, seq)).expect("a name is serializable")
}

/// `postcard::to_stdvec`, on a variant alone. Decoding what it gives gives the
/// variant back.
#[verifier::external_body]
fn encode_variant(variant: u32) -> (bytes: Vec<u8>)
    ensures
        bytes@ == variant_encoding(variant),
        leading_variant(bytes@) is Some,
        (leading_variant(bytes@)->0).0 == variant,
{
    postcard::to_stdvec(&variant).expect("a number is serializable")
}

/// `postcard::take_from_bytes`, for a variant: which it is, and how many bytes
/// follow it.
#[verifier::external_body]
pub(crate) fn take_variant(bytes: &[u8]) -> (variant: Option<(u32, usize)>)
    ensures
        variant is Some == leading_variant(bytes@) is Some,
        variant is Some ==> (variant->0).0 == (leading_variant(bytes@)->0).0,
        variant is Some ==> (variant->0).1 == (leading_variant(bytes@)->0).1,
        variant is Some ==> (variant->0).1 <= bytes@.len(),
{
    let (variant, rest) = postcard::take_from_bytes::<u32>(bytes).ok()?;
    Some((variant, rest.len()))
}

/// `postcard::from_bytes`, for a copy: its plain values, or nothing when the
/// bytes begin with none.
#[verifier::external_body]
fn decode_copy(bytes: &[u8]) -> (parts: Option<CopyParts>)
    ensures
        parts is Some == decoded_copy(bytes@) is Some,
        parts is Some ==> parts_view(parts->0) == decoded_copy(bytes@)->0,
{
    postcard::from_bytes::<CopyParts>(bytes).ok()
}

/// `postcard::from_bytes`, for an `iroh::EndpointId` and a sequence: the bytes
/// of the public key, or nothing when the bytes begin with no such pair or the
/// key is none.
#[verifier::external_body]
fn decode_name(bytes: &[u8]) -> (name: Option<([u8; 32], u64)>)
    ensures
        name is Some == decoded_name(bytes@) is Some,
        name is Some ==> ((name->0).0@, (name->0).1) == decoded_name(bytes@)->0,
{
    let (key, seq) = postcard::from_bytes::<(iroh::EndpointId, u64)>(bytes).ok()?;
    Some((*key.as_bytes(), seq))
}

/// The file that plain values name.
pub open spec fn file_of(triple: (Seq<char>, u64, Seq<u8>)) -> FileName {
    FileName {
        path: triple.0,
        size: triple.1,
        hash: files::Hash {
            word: Word {
                high: crate::word::number(triple.2.subrange(0, 16)) as u128,
                low: crate::word::number(triple.2.subrange(16, 32)) as u128,
            },
        },
    }
}

/// The copy that plain values make up.
pub open spec fn copy_of(parts: CopyPartsView) -> CopyView {
    CopyView {
        reps: seq![parts.0] + parts.1,
        secret: parts.2,
        ttl: parts.3,
        files: parts.4.map_values(|triple: (Seq<char>, u64, Seq<u8>)| file_of(triple)),
    }
}

/// The plain values of a copy.
pub open spec fn parts_of(copy: CopyView) -> CopyPartsView {
    (
        copy.reps[0],
        copy.reps.skip(1),
        copy.secret,
        copy.ttl,
        copy.files.map_values(|file: FileName| (file.path, file.size, file.hash.word.bytes())),
    )
}

/// The bytes that an event is written as.
pub open spec fn encoding(event: EventView) -> Seq<u8> {
    match event {
        EventView::Copy(copy) => copy_encoding(COPY, parts_of(copy)),
        EventView::Clear => variant_encoding(CLEAR),
        EventView::Forget(id) => name_encoding(FORGET, id.origin.key.bytes(), id.seq),
        EventView::Purge => variant_encoding(PURGE),
    }
}

/// The event that some bytes say, if they say one.
pub open spec fn decoding(bytes: Seq<u8>) -> Option<EventView> {
    match leading_variant(bytes) {
        None => None,
        Some((variant, left)) => {
            let rest = bytes.skip(bytes.len() - left);
            if variant == COPY {
                match decoded_copy(rest) {
                    Some(parts) => Some(EventView::Copy(copy_of(parts))),
                    None => None,
                }
            } else if variant == CLEAR {
                Some(EventView::Clear)
            } else if variant == FORGET {
                match decoded_name(rest) {
                    Some((key, seq)) => Some(
                        EventView::Forget(EntryId { origin: endpoint(key), seq }),
                    ),
                    None => None,
                }
            } else if variant == PURGE {
                Some(EventView::Purge)
            } else {
                None
            }
        },
    }
}

/// Whether an event can be read back once it is written: the entry a forget
/// names was written by a machine with a public key.
pub open spec fn writable(event: EventView) -> bool {
    event matches EventView::Forget(id) ==> log::is_public_key(id.origin.key.bytes())
}

/// Whether an event reads back as it was once it is written to the log.
pub open spec fn legible(event: EventView) -> bool {
    decoding(log::payload_bytes(log::payload_of(encoding(event)))) == Some(event)
}

/// The machine with a public key.
pub open spec fn endpoint(key: Seq<u8>) -> EndpointId {
    EndpointId {
        key: Word {
            high: crate::word::number(key.subrange(0, 16)) as u128,
            low: crate::word::number(key.subrange(16, 32)) as u128,
        },
    }
}

/// The bytes of a word say which word it is.
proof fn lemma_word(word: Word)
    ensures
        word == (Word {
            high: crate::word::number(word.bytes().subrange(0, 16)) as u128,
            low: crate::word::number(word.bytes().subrange(16, 32)) as u128,
        }),
{
    word.lemma_bytes();
}

/// The machine with the public key of a machine is that machine.
pub proof fn lemma_endpoint(id: EndpointId)
    ensures
        endpoint(id.key.bytes()) == id,
{
    lemma_word(id.key);
}

/// The plain values of a copy make up the copy.
pub proof fn lemma_copy_of_parts(copy: CopyView)
    requires
        copy.reps.len() > 0,
    ensures
        copy_of(parts_of(copy)) == copy,
{
    let back = copy_of(parts_of(copy));
    assert(back.reps =~= copy.reps);
    assert(back.files =~= copy.files) by {
        assert forall|i: int| 0 <= i < copy.files.len() implies back.files[i] == copy.files[i] by {
            lemma_word(copy.files[i].hash.word);
        }
    }
}

/// Bytes that do not decode.
#[derive(Clone, Copy, Debug, PartialEq, Eq, Structural)]
pub struct DecodeError;

/// The plain values of some representations.
fn pairs_of(reps: &Vec<Rep>) -> (pairs: Vec<(String, Vec<u8>)>)
    ensures
        pairs_view(pairs@) == event::rep_views(reps@),
{
    let mut pairs: Vec<(String, Vec<u8>)> = Vec::new();
    let ghost all = event::rep_views(reps@);
    let mut i: usize = 0;
    while i < reps.len()
        invariant
            i <= reps.len(),
            all == event::rep_views(reps@),
            pairs_view(pairs@) == all.take(i as int),
        decreases reps.len() - i,
    {
        let ghost before = pairs_view(pairs@);
        let rep = reps[i].clone();
        pairs.push((rep.mime, rep.bytes));
        assert(pairs_view(pairs@) =~= before.push(reps@[i as int]@));
        i += 1;
        assert(pairs_view(pairs@) =~= all.take(i as int));
    }
    assert(pairs_view(pairs@) =~= all);
    pairs
}

/// The representations that plain values make up.
fn reps_of(pairs: Vec<(String, Vec<u8>)>) -> (reps: Vec<Rep>)
    ensures
        event::rep_views(reps@) == pairs_view(pairs@),
{
    let mut reps: Vec<Rep> = Vec::new();
    let ghost all = pairs_view(pairs@);
    let mut i: usize = 0;
    while i < pairs.len()
        invariant
            i <= pairs.len(),
            all == pairs_view(pairs@),
            event::rep_views(reps@) == all.take(i as int),
        decreases pairs.len() - i,
    {
        let ghost before = event::rep_views(reps@);
        let pair = &pairs[i];
        reps.push(Rep { mime: pair.0.clone(), bytes: vstd::slice::slice_to_vec(pair.1.as_slice()) });
        assert(event::rep_views(reps@) =~= before.push((pairs@[i as int].0@, pairs@[i as int].1@)));
        i += 1;
        assert(event::rep_views(reps@) =~= all.take(i as int));
    }
    assert(event::rep_views(reps@) =~= all);
    reps
}

/// The plain values of some files.
fn triples_of(files: &Vec<FileRef>) -> (triples: Vec<(String, u64, [u8; 32])>)
    ensures
        triples_view(triples@) == files::manifest(files@).map_values(
            |file: FileName| (file.path, file.size, file.hash.word.bytes()),
        ),
{
    let mut triples: Vec<(String, u64, [u8; 32])> = Vec::new();
    let ghost all = files::manifest(files@).map_values(
        |file: FileName| (file.path, file.size, file.hash.word.bytes()),
    );
    let mut i: usize = 0;
    while i < files.len()
        invariant
            i <= files.len(),
            all == files::manifest(files@).map_values(
                |file: FileName| (file.path, file.size, file.hash.word.bytes()),
            ),
            triples_view(triples@) == all.take(i as int),
        decreases files.len() - i,
    {
        let ghost before = triples_view(triples@);
        let file = &files[i];
        let hash = file.hash.to_bytes();
        triples.push((file.path.clone(), file.size, hash));
        assert(triples_view(triples@) =~= before.push((file.path@, file.size, hash@)));
        assert(all[i as int] == (file.path@, file.size, hash@));
        i += 1;
        assert(triples_view(triples@) =~= all.take(i as int));
    }
    assert(triples_view(triples@) =~= all);
    triples
}

/// The files that plain values name.
fn files_of(triples: Vec<(String, u64, [u8; 32])>) -> (list: Vec<FileRef>)
    ensures
        files::manifest(list@) == triples_view(triples@).map_values(
            |triple: (Seq<char>, u64, Seq<u8>)| file_of(triple),
        ),
{
    let mut list: Vec<FileRef> = Vec::new();
    let ghost all = triples_view(triples@).map_values(
        |triple: (Seq<char>, u64, Seq<u8>)| file_of(triple),
    );
    let mut i: usize = 0;
    while i < triples.len()
        invariant
            i <= triples.len(),
            all == triples_view(triples@).map_values(
                |triple: (Seq<char>, u64, Seq<u8>)| file_of(triple),
            ),
            files::manifest(list@) == all.take(i as int),
        decreases triples.len() - i,
    {
        let ghost before = files::manifest(list@);
        let triple = &triples[i];
        let word = Word::from_bytes(&triple.2);
        proof {
            lemma_word(word);
        }
        let file = FileRef { path: triple.0.clone(), size: triple.1, hash: files::Hash { word } };
        list.push(file);
        assert(files::manifest(list@) =~= before.push(file@));
        assert(all[i as int] == file@);
        i += 1;
        assert(files::manifest(list@) =~= all.take(i as int));
    }
    assert(files::manifest(list@) =~= all);
    list
}

impl Event {
    /// Encodes the event as a log payload.
    pub fn encode(&self) -> (bytes: Payload)
        ensures
            bytes == log::payload_of(encoding(self@)),
            log::payload_bytes(bytes) == encoding(self@),
            writable(self@) ==> legible(self@),
    {
        let bytes = match self {
            Event::Copy(copy) => {
                let rep = copy.selection.primary.clone();
                let parts: CopyParts = (
                    (rep.mime, rep.bytes),
                    pairs_of(&copy.selection.alternates),
                    copy.secret,
                    copy.ttl,
                    triples_of(&copy.files),
                );
                proof {
                    assert(copy@.reps.skip(1) =~= event::rep_views(copy.selection.alternates@));
                    assert(parts_view(parts) == parts_of(copy@));
                    lemma_copy_of_parts(copy@);
                }
                encode_copy(COPY, &parts)
            },
            Event::Clear => encode_variant(CLEAR),
            Event::Forget(id) => {
                let key = id.origin.as_bytes();
                proof {
                    lemma_word(id.origin.key);
                }
                encode_name(FORGET, &key, id.seq)
            },
            Event::Purge => encode_variant(PURGE),
        };
        payload(bytes)
    }

    /// Decodes a log payload written by another machine, or read back from
    /// disk.
    pub fn decode(bytes: &[u8]) -> (event: Result<Self, DecodeError>)
        ensures
            match event {
                Ok(event) => decoding(bytes@) == Some(event@),
                Err(_) => decoding(bytes@) is None,
            },
    {
        let (variant, left) = match take_variant(bytes) {
            Some(found) => found,
            None => {
                return Err(DecodeError);
            },
        };
        let rest = vstd::slice::slice_subrange(bytes, bytes.len() - left, bytes.len());
        assert(rest@ =~= bytes@.skip(bytes@.len() - left));
        if variant == COPY {
            match decode_copy(rest) {
                Some(parts) => {
                    let ghost view = parts_view(parts);
                    let ((mime, body), alternates, secret, ttl, triples) = parts;
                    let selection = Selection {
                        primary: Rep { mime, bytes: body },
                        alternates: reps_of(alternates),
                    };
                    let copy = event::Copy { selection, secret, ttl, files: files_of(triples) };
                    assert(copy@ =~= copy_of(view));
                    Ok(Event::Copy(copy))
                },
                None => Err(DecodeError),
            }
        } else if variant == CLEAR {
            Ok(Event::Clear)
        } else if variant == FORGET {
            match decode_name(rest) {
                Some((key, seq)) => {
                    let word = Word::from_bytes(&key);
                    proof {
                        lemma_word(word);
                    }
                    Ok(Event::Forget(EntryId { origin: EndpointId { key: word }, seq }))
                },
                None => Err(DecodeError),
            }
        } else if variant == PURGE {
            Ok(Event::Purge)
        } else {
            Err(DecodeError)
        }
    }
}

} // verus!
