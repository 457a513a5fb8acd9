//! The messages of one-shot streams as they cross the wire.

use crate::clip::codec;
use crate::clip::codec::take_variant;
use crate::config::mesh;
use crate::config::mesh::{Membership, Peer, PeerStatus, PeerView, MAX_MESH_PEERS};
use crate::config::name;
use crate::config::name::MAX_NAME_LEN;
use crate::log;
use crate::log::{EndpointId, Watermark};
use crate::net::proto::{MessageError, Summary, Topic, UniMessage, MAX_UNI_SIZE};
use crate::ordmap;
use crate::ordmap::{OrdMap, Ranked};
use vstd::prelude::*;

verus! {

/// The number a membership goes by on the wire.
pub const MEMBERSHIP: u32 = 0;

/// The number a summary goes by on the wire.
pub const SUMMARY: u32 = 1;

/// The number the clipboard goes by on the wire.
pub const CLIPBOARD: u32 = 0;

/// A record of a membership in plain values: the public key of the machine, the
/// version, and its name while it is in the mesh.
pub type Record = ([u8; 32], u64, Option<String>);

/// A record of a membership in plain values, for contracts.
pub type RecordView = (Seq<u8>, u64, Option<Seq<char>>);

/// A mark of a summary in plain values: the public key of the machine, and how
/// far its log is held.
pub type Mark = ([u8; 32], u64);

/// A mark of a summary in plain values, for contracts.
pub type MarkView = (Seq<u8>, u64);

/// Some records in plain values, for contracts.
pub open spec fn record_views(records: Seq<Record>) -> Seq<RecordView> {
    records.map_values(
        |record: Record|
            (
                record.0@,
                record.1,
                match record.2 {
                    Some(name) => Some(name@),
                    None => None,
                },
            ),
    )
}

/// Some marks in plain values, for contracts.
pub open spec fn mark_views(marks: Seq<Mark>) -> Seq<MarkView> {
    marks.map_values(|mark: Mark| (mark.0@, mark.1))
}

/// How many bytes some records take at most: a public key takes thirty-two, a
/// number of sixty-four bits or a length no more than ten, one of thirty-two
/// bits no more than five, and a name its own.
pub open spec fn records_bound(records: Seq<RecordView>) -> nat
    decreases records.len(),
{
    if records.len() == 0 {
        15
    } else {
        records_bound(records.drop_last()) + 57 + (match records.last().2 {
            Some(name) => vstd::utf8::encode_utf8(name).len(),
            None => 0,
        })
    }
}

/// The postcard encoding of a variant and some records.
pub uninterp spec fn records_encoding(variant: u32, records: Seq<RecordView>) -> Seq<u8>;

/// The records that some bytes begin with, and how many bytes follow them.
pub uninterp spec fn decoded_records(bytes: Seq<u8>) -> Option<(Seq<RecordView>, nat)>;

/// The postcard encoding of a variant, a topic, a sequence and some marks.
pub uninterp spec fn marks_encoding(
    variant: u32,
    topic: u32,
    seq: u64,
    marks: Seq<MarkView>,
) -> Seq<u8>;

/// The topic, the sequence and the marks that some bytes begin with, and how
/// many bytes follow them.
pub uninterp spec fn decoded_marks(bytes: Seq<u8>) -> Option<((u32, u64, Seq<MarkView>), nat)>;

/// Whether every record is that of a machine with a public key.
pub open spec fn keyed(records: Seq<RecordView>) -> bool {
    forall|i: int| 0 <= i < records.len() ==> log::is_public_key((#[trigger] records[i]).0)
}

/// Whether every mark is that of a machine with a public key.
pub open spec fn marked(marks: Seq<MarkView>) -> bool {
    forall|i: int| 0 <= i < marks.len() ==> log::is_public_key((#[trigger] marks[i]).0)
}

/// `postcard::to_stdvec`, on a variant and some records, a name being a
/// `Result` that holds one. Decoding what it gives, first the variant and then
/// the records, gives them back when the keys are public keys. The format says
/// how much each value takes at most.
#[verifier::external_body]
fn encode_records(variant: u32, records: &Vec<Record>) -> (bytes: Vec<u8>)
    ensures
        bytes@ == records_encoding(variant, record_views(records@)),
        codec::leading_variant(bytes@) is Some,
        (codec::leading_variant(bytes@)->0).0 == variant,
        (codec::leading_variant(bytes@)->0).1 <= bytes@.len(),
        keyed(record_views(records@)) ==> decoded_records(
            bytes@.skip(bytes@.len() - (codec::leading_variant(bytes@)->0).1),
        ) == Some((record_views(records@), 0nat)),
        bytes@.len() <= records_bound(record_views(records@)),
{
    let records: Vec<([u8; 32], u64, Result<&str, ()>)> = records.iter().map(
        |record| (record.0, record.1, record.2.as_deref().ok_or(())),
    ).collect();
    postcard::to_stdvec(&(variant, records)).expect("records are serializable")
}

/// `postcard::take_from_bytes`, for a list of an `iroh::EndpointId`, a version
/// and a `Result` that holds a name: the records, and how many bytes follow
/// them, or nothing when the bytes begin with none or a key is none.
#[verifier::external_body]
fn decode_records(bytes: &[u8]) -> (decoded: Option<(Vec<Record>, usize)>)
    ensures
        match decoded {
            Some((records, left)) => decoded_records(bytes@) == Some(
                (record_views(records@), left as nat),
            ),
            None => decoded is None && decoded_records(bytes@) is None,
        },
{
    let (records, rest) = postcard::take_from_bytes::<
        Vec<(iroh::EndpointId, u64, Result<String, ()>)>,
    >(bytes).ok()?;
    Some((
        records.into_iter().map(|record| (*record.0.as_bytes(), record.1, record.2.ok())).collect(),
        rest.len(),
    ))
}

/// `postcard::to_stdvec`, on a variant, a topic, a sequence and some marks.
/// Decoding what it gives, first the variant and then the rest, gives them back
/// when the keys are public keys. The format says how much each value takes at
/// most.
#[verifier::external_body]
fn encode_marks(variant: u32, topic: u32, seq: u64, marks: &Vec<Mark>) -> (bytes: Vec<u8>)
    ensures
        bytes@ == marks_encoding(variant, topic, seq, mark_views(marks@)),
        codec::leading_variant(bytes@) is Some,
        (codec::leading_variant(bytes@)->0).0 == variant,
        (codec::leading_variant(bytes@)->0).1 <= bytes@.len(),
        marked(mark_views(marks@)) ==> decoded_marks(
            bytes@.skip(bytes@.len() - (codec::leading_variant(bytes@)->0).1),
        ) == Some(((topic, seq, mark_views(marks@)), 0nat)),
        bytes@.len() <= 30 + 42 * marks@.len(),
{
    postcard::to_stdvec(&(variant, topic, seq, marks)).expect("marks are serializable")
}

/// `postcard::take_from_bytes`, for a topic, a sequence and a list of an
/// `iroh::EndpointId` and a sequence: what they are, and how many bytes follow
/// them, or nothing when the bytes begin with none or a key is none.
#[verifier::external_body]
fn decode_marks(bytes: &[u8]) -> (decoded: Option<((u32, u64, Vec<Mark>), usize)>)
    ensures
        match decoded {
            Some((parts, left)) => decoded_marks(bytes@) == Some(
                ((parts.0, parts.1, mark_views(parts.2@)), left as nat),
            ),
            None => decoded is None && decoded_marks(bytes@) is None,
        },
{
    let ((topic, seq, marks), rest) = postcard::take_from_bytes::<
        (u32, u64, Vec<(iroh::EndpointId, u64)>),
    >(bytes).ok()?;
    let marks = marks.into_iter().map(|mark| (*mark.0.as_bytes(), mark.1)).collect();
    Some(((topic, seq, marks), rest.len()))
}

/// A message of a one-shot stream, for contracts.
pub enum UniView {
    Membership(Map<EndpointId, PeerView>),
    Summary { topic: Topic, seq: u64, have: Map<EndpointId, u64> },
}

impl View for UniMessage {
    type V = UniView;

    open spec fn view(&self) -> UniView {
        match *self {
            UniMessage::Membership(membership) => UniView::Membership(membership@),
            UniMessage::Summary(summary) => UniView::Summary {
                topic: summary.topic,
                seq: summary.seq,
                have: summary.have@,
            },
        }
    }
}

/// The records of a membership in plain values, in the order of the machines.
pub open spec fn records_of(pairs: Seq<(EndpointId, Peer)>) -> Seq<RecordView> {
    pairs.map_values(
        |pair: (EndpointId, Peer)| (pair.0.key.bytes(), pair.1.version, pair.1@.name),
    )
}

/// The marks of a summary in plain values, in the order of the machines.
pub open spec fn marks_of(pairs: Seq<(EndpointId, u64)>) -> Seq<MarkView> {
    pairs.map_values(|pair: (EndpointId, u64)| (pair.0.key.bytes(), pair.1))
}

/// The number a topic goes by on the wire.
pub open spec fn topic_number(topic: Topic) -> u32 {
    match topic {
        Topic::Clipboard => CLIPBOARD,
    }
}

/// The bytes a message is written as.
pub open spec fn encoding(message: UniMessage) -> Seq<u8> {
    match message {
        UniMessage::Membership(membership) => records_encoding(
            MEMBERSHIP,
            records_of(membership.peers.pairs()),
        ),
        UniMessage::Summary(summary) => marks_encoding(
            SUMMARY,
            topic_number(summary.topic),
            summary.seq,
            marks_of(summary.have.pairs()),
        ),
    }
}

/// Why bytes are no message.
#[derive(Clone, Copy, Debug, PartialEq, Eq, Structural)]
pub enum GossipError {
    /// They do not decode, or not to a message this build knows.
    Unreadable,
    /// There are bytes left over.
    TrailingBytes,
}

/// The records that plain values make up, the last of a machine counting.
pub open spec fn membership_in(records: Seq<RecordView>) -> Map<EndpointId, PeerView>
    decreases records.len(),
{
    if records.len() == 0 {
        Map::empty()
    } else {
        let last = records.last();
        membership_in(records.drop_last()).insert(
            codec::endpoint(last.0),
            PeerView { version: last.1, name: last.2 },
        )
    }
}

/// The marks that plain values make up.
pub open spec fn marks_in(marks: Seq<MarkView>) -> Seq<(EndpointId, u64)> {
    marks.map_values(|mark: MarkView| (codec::endpoint(mark.0), mark.1))
}

/// What is left of bytes once the variant is taken.
pub open spec fn after_variant(bytes: Seq<u8>) -> Seq<u8> {
    bytes.skip(bytes.len() - (codec::leading_variant(bytes)->0).1)
}

/// The message that some bytes say.
pub open spec fn decoding(bytes: Seq<u8>) -> Result<UniView, GossipError> {
    match codec::leading_variant(bytes) {
        None => Err(GossipError::Unreadable),
        Some((variant, _)) => if variant == MEMBERSHIP {
            match decoded_records(after_variant(bytes)) {
                None => Err(GossipError::Unreadable),
                Some((records, left)) => if left != 0 {
                    Err(GossipError::TrailingBytes)
                } else {
                    Ok(UniView::Membership(membership_in(records)))
                },
            }
        } else if variant == SUMMARY {
            match decoded_marks(after_variant(bytes)) {
                None => Err(GossipError::Unreadable),
                Some(((topic, seq, marks), left)) => if topic != CLIPBOARD {
                    Err(GossipError::Unreadable)
                } else if left != 0 {
                    Err(GossipError::TrailingBytes)
                } else {
                    Ok(
                        UniView::Summary {
                            topic: Topic::Clipboard,
                            seq,
                            have: log::collected(marks_in(marks)),
                        },
                    )
                },
            }
        } else {
            Err(GossipError::Unreadable)
        },
    }
}

/// Whether every machine a message names has a public key.
pub open spec fn writable(message: UniMessage) -> bool {
    match message {
        UniMessage::Membership(membership) => keyed(records_of(membership.peers.pairs())),
        UniMessage::Summary(summary) => marked(marks_of(summary.have.pairs())),
    }
}

/// Whether a message is one a machine at the caps would send: no more machines
/// than a mesh has, and no name longer than a name may be.
pub open spec fn within_caps(message: UniMessage) -> bool {
    match message {
        UniMessage::Membership(membership) => {
            &&& membership.peers.pairs().len() <= MAX_MESH_PEERS
            &&& forall|i: int|
                0 <= i < membership.peers.pairs().len() ==> ((
                #[trigger] membership.peers.pairs()[i]).1@.name matches Some(name) ==> name.len()
                    <= MAX_NAME_LEN)
        },
        UniMessage::Summary(summary) => summary.have.pairs().len() <= MAX_MESH_PEERS,
    }
}

/// A character takes at most four bytes.
proof fn lemma_utf8_len(t: Seq<char>)
    ensures
        vstd::utf8::encode_utf8(t).len() <= 4 * t.len(),
    decreases t.len(),
{
    if t.len() > 0 {
        lemma_utf8_len(t.drop_first());
    }
}

/// Records within the caps take no more than so much.
proof fn lemma_records_bound(records: Seq<RecordView>)
    requires
        forall|i: int|
            0 <= i < records.len() ==> ((#[trigger] records[i]).2 matches Some(name) ==> name.len()
                <= MAX_NAME_LEN),
    ensures
        records_bound(records) <= 15 + 313 * records.len(),
    decreases records.len(),
{
    if records.len() > 0 {
        let rest = records.drop_last();
        assert forall|i: int| 0 <= i < rest.len() implies ((#[trigger] rest[i]).2 matches Some(name)
            ==> name.len() <= MAX_NAME_LEN) by {
            assert(rest[i] == records[i]);
        }
        lemma_records_bound(rest);
        assert(records[records.len() - 1] == records.last());
        if let Some(name) = records.last().2 {
            lemma_utf8_len(name);
        }
    }
}

/// What was written in order is gathered back.
proof fn lemma_membership_in(pairs: Seq<(EndpointId, Peer)>)
    requires
        ordmap::ascending(pairs),
    ensures
        membership_in(records_of(pairs)) == mesh::records(ordmap::map_of(pairs)),
    decreases pairs.len(),
{
    if pairs.len() == 0 {
        assert(mesh::records(ordmap::map_of(pairs)) =~= Map::empty());
    } else {
        let rest = pairs.drop_last();
        let last = pairs.last();
        assert(rest.push(last) =~= pairs);
        ordmap::lemma_map_of_push(rest, last);
        lemma_membership_in(rest);
        assert(records_of(pairs).drop_last() =~= records_of(rest));
        codec::lemma_endpoint(last.0);
        assert(membership_in(records_of(pairs)) =~= mesh::records(ordmap::map_of(pairs)));
    }
}

/// What was written in order is gathered back.
proof fn lemma_marks_in(pairs: Seq<(EndpointId, u64)>)
    requires
        ordmap::ascending(pairs),
    ensures
        marks_in(marks_of(pairs)) == pairs,
        log::collected(pairs) == ordmap::map_of(pairs),
    decreases pairs.len(),
{
    assert forall|i: int| 0 <= i < pairs.len() implies marks_in(marks_of(pairs))[i] == pairs[i] by {
        codec::lemma_endpoint(pairs[i].0);
    }
    assert(marks_in(marks_of(pairs)) =~= pairs);
    if pairs.len() == 0 {
        assert(ordmap::map_of(pairs) =~= Map::empty());
    } else {
        let rest = pairs.drop_last();
        assert(rest.push(pairs.last()) =~= pairs);
        ordmap::lemma_map_of_push(rest, pairs.last());
        lemma_marks_in(rest);
    }
}

/// The records of a membership in plain values.
fn plain_records(peers: &OrdMap<EndpointId, Peer>) -> (records: Vec<Record>)
    requires
        peers.wf(),
    ensures
        record_views(records@) == records_of(peers.pairs()),
{
    let ghost all = records_of(peers.pairs());
    let n: usize = peers.len();
    let mut records: Vec<Record> = Vec::new();
    let mut i: usize = 0;
    assert(record_views(records@) =~= all.take(0));
    while i < n
        invariant
            i <= n == peers.pairs().len(),
            all == records_of(peers.pairs()),
            record_views(records@) == all.take(i as int),
        decreases n - i,
    {
        let id = peers.key_at(i);
        let peer = peers.value_at(i);
        let name = match &peer.status {
            PeerStatus::Alive { name } => Some(name.clone()),
            PeerStatus::Removed => None,
        };
        let ghost before = record_views(records@);
        records.push((id.as_bytes(), peer.version, name));
        assert(record_views(records@) =~= before.push(all[i as int]));
        i += 1;
        assert(all.take(i as int) =~= before.push(all[i - 1]));
    }
    assert(all.take(i as int) =~= all);
    records
}

/// The membership that plain values make up.
fn membership_of(records: Vec<Record>) -> (membership: Membership)
    ensures
        membership.wf(),
        membership@ == membership_in(record_views(records@)),
{
    let ghost all = record_views(records@);
    let mut peers: OrdMap<EndpointId, Peer> = OrdMap::new();
    let mut i: usize = 0;
    assert(all.take(0) =~= Seq::empty());
    assert(mesh::records(peers@) =~= Map::empty());
    while i < records.len()
        invariant
            i <= records.len(),
            all == record_views(records@),
            peers.wf(),
            mesh::records(peers@) == membership_in(all.take(i as int)),
        decreases records.len() - i,
    {
        let id = EndpointId::from_bytes(&records[i].0);
        let status = match &records[i].2 {
            Some(name) => PeerStatus::Alive { name: name.clone() },
            None => PeerStatus::Removed,
        };
        let peer = Peer { version: records[i].1, status };
        proof {
            codec::lemma_endpoint(id);
            assert(all.take(i + 1).drop_last() =~= all.take(i as int));
        }
        let ghost before = mesh::records(peers@);
        let ghost record = peer@;
        peers.insert(id, peer);
        assert(mesh::records(peers@) =~= before.insert(id, record));
        i += 1;
    }
    assert(all.take(i as int) =~= all);
    Membership { peers }
}

/// The marks of a summary in plain values.
fn plain_marks(have: &Watermark) -> (marks: Vec<Mark>)
    requires
        have.wf(),
    ensures
        mark_views(marks@) == marks_of(have.pairs()),
{
    let list = have.marks();
    let ghost all = marks_of(list@);
    let mut marks: Vec<Mark> = Vec::new();
    let mut i: usize = 0;
    assert(mark_views(marks@) =~= all.take(0));
    while i < list.len()
        invariant
            i <= list.len(),
            all == marks_of(list@),
            mark_views(marks@) == all.take(i as int),
        decreases list.len() - i,
    {
        let ghost before = mark_views(marks@);
        marks.push((list[i].0.as_bytes(), list[i].1));
        assert(mark_views(marks@) =~= before.push(all[i as int]));
        i += 1;
        assert(all.take(i as int) =~= before.push(all[i - 1]));
    }
    assert(all.take(i as int) =~= all);
    marks
}

/// The watermark that plain values make up.
fn watermark_of(marks: Vec<Mark>) -> (have: Watermark)
    ensures
        have.wf(),
        have@ == log::collected(marks_in(mark_views(marks@))),
{
    let ghost all = marks_in(mark_views(marks@));
    let mut list: Vec<(EndpointId, u64)> = Vec::new();
    let mut i: usize = 0;
    while i < marks.len()
        invariant
            i <= marks.len(),
            all == marks_in(mark_views(marks@)),
            list@ == all.take(i as int),
        decreases marks.len() - i,
    {
        let id = EndpointId::from_bytes(&marks[i].0);
        proof {
            codec::lemma_endpoint(id);
        }
        list.push((id, marks[i].1));
        i += 1;
        assert(list@ =~= all.take(i as int));
    }
    assert(list@ =~= all);
    Watermark::collect(list.as_slice())
}

impl UniMessage {
    /// Writes the message down, to be sent. A machine at the caps can still be
    /// told of: what is within them fits on the wire.
    pub fn encode(&self) -> (bytes: Vec<u8>)
        requires
            self.wf(),
        ensures
            bytes@ == encoding(*self),
            writable(*self) ==> decoding(bytes@) == Ok::<UniView, GossipError>(self@),
            within_caps(*self) ==> bytes@.len() <= MAX_UNI_SIZE,
    {
        match self {
            UniMessage::Membership(membership) => {
                let records = plain_records(&membership.peers);
                let bytes = encode_records(MEMBERSHIP, &records);
                proof {
                    let pairs = membership.peers.pairs();
                    membership.peers.lemma_pairs();
                    lemma_membership_in(pairs);
                    if within_caps(*self) {
                        let all = records_of(pairs);
                        assert forall|i: int| 0 <= i < all.len() implies ((
                        #[trigger] all[i]).2 matches Some(name) ==> name.len() <= MAX_NAME_LEN) by {
                            assert(all[i].2 == pairs[i].1@.name);
                        }
                        lemma_records_bound(all);
                    }
                }
                bytes
            },
            UniMessage::Summary(summary) => {
                let marks = plain_marks(&summary.have);
                let topic: u32 = match summary.topic {
                    Topic::Clipboard => CLIPBOARD,
                };
                let ghost pairs = summary.have.pairs();
                let list = summary.have.marks();
                proof {
                    lemma_marks_in(pairs);
                }
                encode_marks(SUMMARY, topic, summary.seq, &marks)
            },
        }
    }

    /// Reads a message of a peer.
    pub fn decode(bytes: &[u8]) -> (result: Result<UniMessage, GossipError>)
        ensures
            match result {
                Ok(message) => message.wf() && decoding(bytes@) == Ok::<UniView, GossipError>(
                    message@,
                ),
                Err(error) => decoding(bytes@) == Err::<UniView, GossipError>(error),
            },
    {
        let (variant, left) = match take_variant(bytes) {
            Some(found) => found,
            None => {
                return Err(GossipError::Unreadable);
            },
        };
        let rest = vstd::slice::slice_subrange(bytes, bytes.len() - left, bytes.len());
        assert(rest@ =~= after_variant(bytes@));
        if variant == MEMBERSHIP {
            match decode_records(rest) {
                None => Err(GossipError::Unreadable),
                Some((records, left)) => {
                    if left != 0 {
                        return Err(GossipError::TrailingBytes);
                    }
                    Ok(UniMessage::Membership(membership_of(records)))
                },
            }
        } else if variant == SUMMARY {
            match decode_marks(rest) {
                None => Err(GossipError::Unreadable),
                Some(((topic, seq, marks), left)) => {
                    if topic != CLIPBOARD {
                        return Err(GossipError::Unreadable);
                    }
                    if left != 0 {
                        return Err(GossipError::TrailingBytes);
                    }
                    let have = watermark_of(marks);
                    Ok(UniMessage::Summary(Summary { topic: Topic::Clipboard, seq, have }))
                },
            }
        } else {
            Err(GossipError::Unreadable)
        }
    }
}

/// Why a message of a peer is dropped.
#[derive(Clone, Copy, Debug, PartialEq, Eq, Structural)]
pub enum Dropped {
    /// It cannot be read.
    Bad(GossipError),
    /// It is too big to be legitimate.
    TooBig(MessageError),
}

/// What is taken of the bytes a peer sent on a one-shot stream: the message
/// they say, unless it says too much.
pub fn receive(bytes: &[u8]) -> (result: Result<UniMessage, Dropped>)
    ensures
        match decoding(bytes@) {
            Err(error) => result == Err::<UniMessage, Dropped>(Dropped::Bad(error)),
            Ok(UniView::Membership(peers)) => if peers.len() <= MAX_MESH_PEERS {
                result matches Ok(message) && message.wf() && message@ == UniView::Membership(peers)
            } else {
                result == Err::<UniMessage, Dropped>(
                    Dropped::TooBig(MessageError::MembershipTooLarge),
                )
            },
            Ok(UniView::Summary { topic, seq, have }) => if have.len() <= MAX_MESH_PEERS {
                result matches Ok(message) && message.wf() && message@ == (UniView::Summary {
                    topic,
                    seq,
                    have,
                })
            } else {
                result == Err::<UniMessage, Dropped>(Dropped::TooBig(MessageError::SummaryTooLarge))
            },
        },
{
    let message = match UniMessage::decode(bytes) {
        Ok(message) => message,
        Err(error) => {
            return Err(Dropped::Bad(error));
        },
    };
    match message.validate() {
        Ok(_) => Ok(message),
        Err(error) => Err(Dropped::TooBig(error)),
    }
}

/// The largest membership a machine keeps still fits on the wire: a mesh at the
/// cap of machines, each with the longest name there may be, can be told of.
pub proof fn a_full_membership_fits_on_the_wire(pairs: Seq<(EndpointId, Peer)>)
    requires
        pairs.len() <= MAX_MESH_PEERS,
        forall|i: int|
            0 <= i < pairs.len() ==> ((#[trigger] pairs[i]).1@.name matches Some(name)
                ==> name::name_refusal(name) is None),
    ensures
        records_bound(records_of(pairs)) <= MAX_UNI_SIZE,
{
    let all = records_of(pairs);
    assert forall|i: int| 0 <= i < all.len() implies ((#[trigger] all[i]).2 matches Some(name)
        ==> name.len() <= MAX_NAME_LEN) by {
        assert(all[i].2 == pairs[i].1@.name);
    }
    lemma_records_bound(all);
}

/// Every machine of a membership is told of, with its version and its name, or
/// that it was removed; and so is how far a machine has got in the log of every
/// other. No other machine comes of it.
pub proof fn every_machine_is_told_of(
    pairs: Seq<(EndpointId, Peer)>,
    marks: Seq<(EndpointId, u64)>,
    i: int,
    id: EndpointId,
)
    requires
        ordmap::ascending(pairs),
        ordmap::ascending(marks),
    ensures
        ({
            let told = membership_in(records_of(pairs));
            let have = log::collected(marks_in(marks_of(marks)));
            &&& 0 <= i < pairs.len() ==> told.contains_key(pairs[i].0) && told[pairs[i].0].version
                == pairs[i].1.version && told[pairs[i].0].name == pairs[i].1@.name
            &&& told.contains_key(id) ==> exists|k: int|
                0 <= k < pairs.len() && (#[trigger] pairs[k]).0 == id
            &&& 0 <= i < marks.len() ==> have.contains_key(marks[i].0) && have[marks[i].0]
                == marks[i].1
            &&& have.contains_key(id) ==> exists|k: int|
                0 <= k < marks.len() && (#[trigger] marks[k]).0 == id
        }),
{
    lemma_membership_in(pairs);
    lemma_marks_in(marks);
    if 0 <= i < pairs.len() {
        assert(ordmap::among(pairs, pairs[i].0));
        let k = choose|k: int| 0 <= k < pairs.len() && (#[trigger] pairs[k]).0 == pairs[i].0;
        assert(k == i) by {
            if k < i {
                assert(pairs[k].0.rank() < pairs[i].0.rank());
            } else if i < k {
                assert(pairs[i].0.rank() < pairs[k].0.rank());
            }
        }
        assert(ordmap::map_of(pairs).contains_key(pairs[i].0));
    }
    if 0 <= i < marks.len() {
        assert(ordmap::among(marks, marks[i].0));
        let k = choose|k: int| 0 <= k < marks.len() && (#[trigger] marks[k]).0 == marks[i].0;
        assert(k == i) by {
            if k < i {
                assert(marks[k].0.rank() < marks[i].0.rank());
            } else if i < k {
                assert(marks[i].0.rank() < marks[k].0.rank());
            }
        }
        assert(ordmap::map_of(marks).contains_key(marks[i].0));
    }
    if membership_in(records_of(pairs)).contains_key(id) {
        assert(ordmap::map_of(pairs).contains_key(id));
        assert(ordmap::among(pairs, id));
    }
    if log::collected(marks_in(marks_of(marks))).contains_key(id) {
        assert(ordmap::map_of(marks).contains_key(id));
        assert(ordmap::among(marks, id));
    }
}


} // verus!
