//! Content on its way into the spool: what has arrived, and whether it is what
//! it was asked for.

use crate::files;
use crate::files::store::{Store, StoreView};
use crate::files::FileRef;
use crate::net::proto::{ContentReply, ContentRequest};
use crate::word::Word;
use vstd::prelude::*;

verus! {

/// `blake3::Hasher` holds the hash of what it was given so far.
#[verifier::external_type_specification]
#[verifier::external_body]
pub struct ExHasher(blake3::Hasher);

/// The bytes a hasher was given so far.
pub uninterp spec fn hashed(hasher: blake3::Hasher) -> Seq<u8>;

/// `blake3::Hasher::new` makes a hasher that was given nothing.
#[verifier::external_body]
fn new_hasher() -> (hasher: blake3::Hasher)
    ensures
        hashed(hasher) == Seq::<u8>::empty(),
{
    blake3::Hasher::new()
}

/// `blake3::Hasher::update` adds bytes to what the hasher was given. What it
/// was given has to stay below two to the power of sixty-four bytes.
#[verifier::external_body]
fn add_to_hasher(hasher: &mut blake3::Hasher, bytes: &[u8])
    requires
        hashed(*old(hasher)).len() + bytes@.len() <= u64::MAX,
    ensures
        hashed(*final(hasher)) == hashed(*old(hasher)) + bytes@,
{
    hasher.update(bytes);
}

/// `blake3::Hasher::finalize` gives the hash of everything the hasher was
/// given: the one `blake3::hash` gives of those bytes at once.
#[verifier::external_body]
fn hash_of_hasher(hasher: &blake3::Hasher) -> (hash: [u8; 32])
    ensures
        hash@ == files::blake3_hash(hashed(*hasher)),
{
    *hasher.finalize().as_bytes()
}

/// Content being hashed as it is read, a piece at a time.
pub struct Digest {
    hasher: blake3::Hasher,
    size: u64,
}

impl View for Digest {
    type V = Seq<u8>;

    closed spec fn view(&self) -> Seq<u8> {
        hashed(self.hasher)
    }
}

impl Digest {
    /// Whether the size is that of what was read.
    pub closed spec fn wf(&self) -> bool {
        self.size == hashed(self.hasher).len()
    }

    /// Nothing read yet.
    pub fn new() -> (digest: Self)
        ensures
            digest.wf(),
            digest@ == Seq::<u8>::empty(),
    {
        Digest { hasher: new_hasher(), size: 0 }
    }

    /// Takes the next piece.
    pub fn read(&mut self, bytes: &[u8])
        requires
            old(self).wf(),
            old(self)@.len() + bytes@.len() <= u64::MAX,
        ensures
            final(self).wf(),
            final(self)@ == old(self)@ + bytes@,
    {
        add_to_hasher(&mut self.hasher, bytes);
        self.size = self.size + bytes.len() as u64;
    }

    /// The hash and size of what was read.
    pub fn finish(&self) -> (content: (files::Hash, u64))
        requires
            self.wf(),
        ensures
            content.0.word.bytes() == files::blake3_hash(self@),
            content.1 == self@.len(),
    {
        let bytes = hash_of_hasher(&self.hasher);
        (files::Hash { word: Word::from_bytes(&bytes) }, self.size)
    }
}

/// A transfer being written into the spool.
pub struct Incoming {
    hash: files::Hash,
    written: u64,
}

/// What becomes of a transfer that has ended.
#[derive(Clone, Copy, Debug, PartialEq, Eq, Structural)]
pub enum Landed {
    /// It is what it was asked for: it goes into the spool under its name.
    Spooled,
    /// It is not: the file goes, since what is left is not the content, and
    /// keeping it would have every later transfer resume on top of the wrong
    /// bytes.
    Refused,
}

impl Incoming {
    /// The content that was asked for.
    pub closed spec fn asked(&self) -> files::Hash {
        self.hash
    }

    /// How many bytes of it are here.
    pub closed spec fn here(&self) -> u64 {
        self.written
    }

    /// A transfer of which some bytes are already on the disk.
    pub fn resume(hash: files::Hash, written: u64) -> (incoming: Self)
        ensures
            incoming.asked() == hash,
            incoming.here() == written,
    {
        Incoming { hash, written }
    }

    /// How much of the content is already here, and where a peer should carry
    /// on from.
    pub fn at(&self) -> (at: u64)
        ensures
            at == self.here(),
    {
        self.written
    }

    /// Counts what was appended.
    pub fn wrote(&mut self, bytes: u64)
        requires
            old(self).here() + bytes <= u64::MAX,
        ensures
            final(self).asked() == old(self).asked(),
            final(self).here() == old(self).here() + bytes,
    {
        self.written = self.written + bytes;
    }

    /// Checks the file against the hash it was asked for.
    pub fn finish(&self, found: &Digest) -> (landed: Landed)
        requires
            found.wf(),
        ensures
            landed == (if files::blake3_hash(found@) == self.asked().word.bytes() {
                Landed::Spooled
            } else {
                Landed::Refused
            }),
    {
        let (hash, _) = found.finish();
        proof {
            if hash.word.bytes() == self.hash.word.bytes() {
                Word::lemma_bytes_name_the_word(hash.word, self.hash.word);
            }
        }
        if hash == self.hash {
            Landed::Spooled
        } else {
            Landed::Refused
        }
    }
}

/// Why a transfer is given up.
#[derive(Clone, Copy, Debug, PartialEq, Eq, Structural)]
pub enum PullError {
    /// The peer offers this many bytes in all, which is not what the entry
    /// says.
    WrongSize { offered: u64 },
    /// The transfer stopped this many bytes short.
    Short { left: u64 },
}

/// What to do next in a transfer.
#[derive(Clone, Copy, Debug, PartialEq, Eq, Structural)]
pub enum Pull {
    /// Read no more than this many bytes, and hand them to the spool.
    Read { want: usize },
    /// Everything is here: check it and put it in the spool.
    Check,
    /// The peer does not have it.
    Absent,
    /// Give up.
    Fail(PullError),
}

/// A transfer from one peer, from the request to the last byte.
pub struct Transfer {
    at: u64,
    left: u64,
}

/// Where a transfer of a file picks up, when some of it is here.
pub open spec fn picks_up(here: u64, size: u64) -> u64 {
    if here <= size {
        here
    } else {
        size
    }
}

/// The next step of a transfer with some bytes left, read in pieces of at most
/// `chunk` bytes.
pub open spec fn next_pull(left: u64, chunk: usize) -> Pull {
    if left == 0 {
        Pull::Check
    } else if left <= chunk {
        Pull::Read { want: left as usize }
    } else {
        Pull::Read { want: chunk }
    }
}

impl Transfer {
    /// Where the transfer picked up.
    pub closed spec fn start(&self) -> u64 {
        self.at
    }

    /// How many bytes are still to come.
    pub closed spec fn left(&self) -> u64 {
        self.left
    }

    /// What to ask a peer for.
    pub fn request(incoming: &Incoming, file: &FileRef) -> (ask: ContentRequest)
        ensures
            ask.hash == file@.hash,
            ask.at == picks_up(incoming.here(), file@.size),
    {
        let here: u64 = incoming.at();
        let at: u64 = if here <= file.size {
            here
        } else {
            file.size
        };
        ContentRequest { hash: file.hash, at }
    }

    /// Takes the peer's answer.
    pub fn answered(ask: ContentRequest, reply: ContentReply, file: &FileRef, chunk: usize) -> (r: (
        Transfer,
        Pull,
    ))
        ensures
            r.0.start() == ask.at,
            match reply {
                ContentReply::Missing => r.1 == Pull::Absent,
                ContentReply::Sending { size } => if ask.at + size == file@.size {
                    r.0.left() == size && r.1 == next_pull(size, chunk)
                } else {
                    r.1 == Pull::Fail(
                        PullError::WrongSize {
                            offered: if ask.at + size <= u64::MAX {
                                (ask.at + size) as u64
                            } else {
                                u64::MAX
                            },
                        },
                    )
                },
            },
    {
        let size: u64 = match reply {
            ContentReply::Missing => {
                return (Transfer { at: ask.at, left: 0 }, Pull::Absent);
            },
            ContentReply::Sending { size } => size,
        };
        let transfer = Transfer { at: ask.at, left: size };
        if ask.at > u64::MAX - size || ask.at + size != file.size {
            let offered: u64 = if ask.at > u64::MAX - size {
                u64::MAX
            } else {
                ask.at + size
            };
            return (transfer, Pull::Fail(PullError::WrongSize { offered }));
        }
        let next = transfer.next(chunk);
        (transfer, next)
    }

    /// The next step.
    fn next(&self, chunk: usize) -> (next: Pull)
        ensures
            next == next_pull(self.left(), chunk),
    {
        if self.left == 0 {
            Pull::Check
        } else if self.left as u128 <= chunk as u128 {
            Pull::Read { want: self.left as usize }
        } else {
            Pull::Read { want: chunk }
        }
    }

    /// Counts what was read: nothing means that the peer stopped sending.
    pub fn received(&mut self, bytes: usize, chunk: usize) -> (next: Pull)
        requires
            bytes <= old(self).left(),
        ensures
            final(self).start() == old(self).start(),
            final(self).left() == old(self).left() - bytes,
            next == (if bytes == 0 {
                Pull::Fail(PullError::Short { left: old(self).left() })
            } else {
                next_pull(final(self).left(), chunk)
            }),
    {
        if bytes == 0 {
            return Pull::Fail(PullError::Short { left: self.left });
        }
        self.left = self.left - bytes as u64;
        self.next(chunk)
    }
}

/// What a machine that was asked for content answers: the bytes from the
/// offset on when it has that many, and that it is missing otherwise.
pub open spec fn content_reply(size: Option<u64>, at: u64) -> ContentReply {
    match size {
        Some(size) => if at <= size {
            ContentReply::Sending { size: (size - at) as u64 }
        } else {
            ContentReply::Missing
        },
        None => ContentReply::Missing,
    }
}

/// Answers a request for content of which this many bytes are here, if any.
pub fn reply_to(request: ContentRequest, size: Option<u64>) -> (reply: ContentReply)
    ensures
        reply == content_reply(size, request.at),
{
    match size {
        Some(size) => if request.at <= size {
            ContentReply::Sending { size: size - request.at }
        } else {
            ContentReply::Missing
        },
        None => ContentReply::Missing,
    }
}

/// A peer that has the whole of what an entry names is never refused: what it
/// answers is what is missing, byte for byte.
pub proof fn a_transfer_resumes_where_it_stopped(here: u64, size: u64)
    ensures
        content_reply(Some(size), picks_up(here, size)) == (ContentReply::Sending {
            size: (size - picks_up(here, size)) as u64,
        }),
        picks_up(here, size) + (size - picks_up(here, size)) == size,
{
}

/// A transfer never reads past what the entry says, and what it reads is never
/// nothing while something is left.
pub proof fn a_transfer_reads_no_more_than_is_left(left: u64, chunk: usize)
    requires
        chunk > 0,
    ensures
        match next_pull(left, chunk) {
            Pull::Read { want } => 0 < want <= left && want <= chunk,
            Pull::Check => left == 0,
            _ => false,
        },
{
}

/// A hard link that lays a file out.
pub struct Link {
    /// The content in the spool.
    pub from: Vec<u8>,
    /// Where the file lies in the tree.
    pub to: Vec<u8>,
}

/// The paths of a hard link.
pub open spec fn link_view(link: Link) -> (Seq<u8>, Seq<u8>) {
    (link.from@, link.to@)
}

/// The links that lay the files of an entry out as a tree.
pub open spec fn links(store: StoreView, tree: Seq<u8>, list: Seq<files::FileName>) -> Seq<
    (Seq<u8>, Seq<u8>),
> {
    list.map_values(
        |file: files::FileName| (store.blob(file.hash), files::laid_out(tree, file)),
    )
}

/// Whether the path of every file may be created under a tree.
pub open spec fn all_safe(list: Seq<files::FileName>) -> bool {
    forall|i: int| 0 <= i < list.len() ==> files::safe((#[trigger] list[i]).path)
}

impl Store {
    /// How an entry's files are laid out as a tree of links into the spool, or
    /// nothing when a path climbs out of the tree.
    pub fn lay_out(&self, id: crate::log::EntryId, list: &[FileRef]) -> (plan: Option<Vec<Link>>)
        ensures
            match plan {
                Some(plan) => {
                    &&& all_safe(files::manifest(list@))
                    &&& plan@.map_values(|link: Link| link_view(link)) == links(
                        self@,
                        self@.tree(id),
                        files::manifest(list@),
                    )
                },
                None => !all_safe(files::manifest(list@)),
            },
    {
        let tree = self.tree(id);
        let ghost all = files::manifest(list@);
        let ghost wanted = links(self@, tree@, all);
        let mut plan: Vec<Link> = Vec::new();
        let mut i: usize = 0;
        while i < list.len()
            invariant
                i <= list.len(),
                all == files::manifest(list@),
                wanted == links(self@, tree@, all),
                tree@ == self@.tree(id),
                forall|j: int| 0 <= j < i ==> files::safe((#[trigger] all[j]).path),
                plan@.map_values(|link: Link| link_view(link)) == wanted.take(i as int),
            decreases list.len() - i,
        {
            assert(all[i as int] == list@[i as int]@);
            if !list[i].is_safe() {
                return None;
            }
            let ghost before = plan@.map_values(|link: Link| link_view(link));
            let link = Link {
                from: self.blob(list[i].hash),
                to: files::join(tree.as_slice(), list[i].path.as_str().as_bytes()),
            };
            assert(link_view(link) == wanted[i as int]);
            plan.push(link);
            assert(plan@.map_values(|link: Link| link_view(link)) =~= before.push(link_view(link)));
            i += 1;
            assert(plan@.map_values(|link: Link| link_view(link)) =~= wanted.take(i as int));
        }
        assert(wanted.take(i as int) =~= wanted);
        Some(plan)
    }
}

/// A file of an entry is only ever laid out below the tree of the entry.
pub proof fn a_path_from_a_peer_is_never_followed_out_of_the_tree(
    tree: Seq<u8>,
    file: files::FileName,
)
    requires
        files::safe(file.path),
    ensures
        tree.is_prefix_of(files::laid_out(tree, file)),
        forall|i: int|
            0 <= i < files::parts(file.path, '/').len() ==> #[trigger] files::parts(
                file.path,
                '/',
            )[i] != seq!['.', '.'],
{
    let path = vstd::utf8::encode_utf8(file.path);
    vstd::utf8::encode_utf8_first_scalar(file.path);
    let whole = files::laid_out(tree, file);
    assert(path.len() > 0);
    if path[0] == 0x2f {
        assert((0x2fu8 & 0x7fu8) == 0x2fu8) by (bit_vector);
        assert(vstd::utf8::codepoint_width_1(0x2f) == 0x2f);
        vstd::utf8::char_is_scalar(file.path[0]);
        vstd::utf8::char_u32_cast(file.path[0], 0x2f);
        assert(file.path[0] == '/');
    }
    assert(path[0] != 0x2f);
    assert(tree =~= whole.take(tree.len() as int));
}

/// A transfer reads what is left in pieces as large as it may: all of it when it
/// fits one piece.
pub proof fn a_transfer_reads_as_much_as_it_may(left: u64, chunk: usize)
    ensures
        left == 0 ==> next_pull(left, chunk) == Pull::Check,
        0 < left <= chunk ==> next_pull(left, chunk) == (Pull::Read { want: left as usize }),
        left > chunk ==> next_pull(left, chunk) == (Pull::Read { want: chunk }),
{
}

/// A transfer goes on from what is here, and begins again at the end when there
/// is more here than there should be; and a machine that has at least that much
/// sends the rest, while one that has not says so.
pub proof fn what_is_asked_for_is_the_rest(here: u64, size: u64, held: u64, at: u64)
    ensures
        here <= size ==> picks_up(here, size) == here,
        here > size ==> picks_up(here, size) == size,
        at <= held ==> content_reply(Some(held), at) == (ContentReply::Sending {
            size: (held - at) as u64,
        }),
        at > held ==> content_reply(Some(held), at) == ContentReply::Missing,
        content_reply(None, at) == ContentReply::Missing,
{
}

/// Every file of an entry is laid out: a link from the content it names to its
/// place under the tree, in the order of the manifest.
pub proof fn every_file_is_laid_out(
    store: StoreView,
    tree: Seq<u8>,
    list: Seq<files::FileName>,
    i: int,
)
    requires
        0 <= i < list.len(),
        files::safe(list[i].path),
        tree.len() > 0,
        tree.last() != 0x2f,
    ensures
        links(store, tree, list).len() == list.len(),
        links(store, tree, list)[i].0 == store.blob(list[i].hash),
        links(store, tree, list)[i].1 == tree + seq![0x2fu8] + vstd::utf8::encode_utf8(
            list[i].path,
        ),
{
    a_path_from_a_peer_is_never_followed_out_of_the_tree(tree, list[i]);
    let path = vstd::utf8::encode_utf8(list[i].path);
    let whole = files::laid_out(tree, list[i]);
    if path.len() > 0 && path[0] == 0x2f {
        lemma_no_leading_slash(list[i].path);
    }
    assert(tree.push(0x2f) + path =~= tree + seq![0x2fu8] + path);
}

proof fn lemma_no_leading_slash(path: Seq<char>)
    requires
        files::safe(path),
    ensures
        vstd::utf8::encode_utf8(path).len() > 0,
        vstd::utf8::encode_utf8(path)[0] != 0x2f,
{
    let bytes = vstd::utf8::encode_utf8(path);
    vstd::utf8::encode_utf8_first_scalar(path);
    if bytes[0] == 0x2f {
        assert((0x2fu8 & 0x7fu8) == 0x2fu8) by (bit_vector);
        assert(vstd::utf8::codepoint_width_1(0x2f) == 0x2f);
        vstd::utf8::char_is_scalar(path[0]);
        vstd::utf8::char_u32_cast(path[0], 0x2f);
    }
}


} // verus!
