//! The spool: content by hash, and the trees entries are laid out in.
//!
//! ```text
//!   files/blobs/<hash>          the bytes, named by what they are
//!   files/blobs/<hash>.part     a transfer that has not finished
//!   files/trees/<entry>/<path>  hard links, under the names of the copy
//! ```
//!
//! Two views of one thing. Content is addressed by hash so a file already
//! here is never fetched twice and a transfer that ends with the wrong bytes
//! is caught by the name it was asked for; the tree is what a `file://` URI
//! can point at, since a pasting application wants `photos/a.png` and not a
//! hash.
//!
//! What is decided here is where things lie, what a sweep may drop and what a
//! transfer amounted to. Whoever holds the spool does the reading and writing.

use crate::encoding;
use crate::files;
use crate::files::{join, FileRef};
use crate::log::EntryId;
use crate::ordmap::OrdMap;
use crate::text;
use vstd::prelude::*;

verus! {

/// What a transfer that has not finished is named after the content it will
/// become.
pub const PARTIAL: &'static str = ".part";

/// Prefix of a file being copied into the spool, before it is named by what
/// it turned out to be. A sweep leaves these alone: one of them may be a copy
/// in progress, and unlinking it would fail the copy.
pub const TAKING: &'static str = "taking-";

/// The spool of one machine.
pub struct Store {
    blobs: Vec<u8>,
    trees: Vec<u8>,
    /// Hashes copied into the spool before their manifest reaches the log,
    /// with how many manifests are yet to name them.
    pending: OrdMap<files::Hash, usize>,
}

/// A spool, for contracts.
#[verifier::ext_equal]
pub struct StoreView {
    pub blobs: Seq<u8>,
    pub trees: Seq<u8>,
    pub pending: Map<files::Hash, usize>,
}

impl View for Store {
    type V = StoreView;

    closed spec fn view(&self) -> StoreView {
        StoreView { blobs: self.blobs@, trees: self.trees@, pending: self.pending@ }
    }
}

/// A path with a piece of text below it.
pub open spec fn below(base: Seq<u8>, name: Seq<char>) -> Seq<u8> {
    files::joined(base, vstd::utf8::encode_utf8(name))
}

/// How many manifests are yet to name some content.
pub open spec fn reserved(pending: Map<files::Hash, usize>, hash: files::Hash) -> usize {
    if pending.contains_key(hash) {
        pending[hash]
    } else {
        0
    }
}

/// The reservations once one more manifest is to name some content.
pub open spec fn reserve_one(pending: Map<files::Hash, usize>, hash: files::Hash) -> Map<
    files::Hash,
    usize,
> {
    pending.insert(hash, (reserved(pending, hash) + 1) as usize)
}

/// The reservations once one manifest fewer is to name some content.
pub open spec fn release_one(pending: Map<files::Hash, usize>, hash: files::Hash) -> Map<
    files::Hash,
    usize,
> {
    if reserved(pending, hash) <= 1 {
        pending.remove(hash)
    } else {
        pending.insert(hash, (reserved(pending, hash) - 1) as usize)
    }
}

/// The reservations once the files of a manifest are let go of, in order.
pub open spec fn release_all(
    pending: Map<files::Hash, usize>,
    list: Seq<files::FileName>,
) -> Map<files::Hash, usize>
    decreases list.len(),
{
    if list.len() == 0 {
        pending
    } else {
        release_one(release_all(pending, list.drop_last()), list.last().hash)
    }
}

/// Whether every file of a manifest is reserved, as often as it names it.
pub open spec fn all_reserved(
    pending: Map<files::Hash, usize>,
    list: Seq<files::FileName>,
) -> bool {
    forall|n: int|
        0 <= n < list.len() ==> release_all(pending, #[trigger] list.take(n)).contains_key(
            list[n].hash,
        )
}

/// Whether no content is reserved zero times.
pub open spec fn counted(pending: Map<files::Hash, usize>) -> bool {
    forall|hash: files::Hash| #[trigger] pending.contains_key(hash) ==> pending[hash] > 0
}

impl StoreView {
    /// Where some content is, whether or not it is there.
    pub open spec fn blob(self, hash: files::Hash) -> Seq<u8> {
        below(self.blobs, hash.file_text())
    }

    /// Where the files of an entry are laid out.
    pub open spec fn tree(self, id: EntryId) -> Seq<u8> {
        below(self.trees, id.label_text())
    }

    /// Where a transfer that has not finished is.
    pub open spec fn partial(self, hash: files::Hash) -> Seq<u8> {
        below(self.blobs, hash.file_text() + PARTIAL@)
    }

    /// Where a file being copied into the spool is, under a number.
    pub open spec fn taking(self, number: u64) -> Seq<u8> {
        below(self.blobs, TAKING@ + sixteen(number as nat, 16))
    }

    /// Whether a sweep keeps a tree of that name, when the history holds those
    /// entries.
    pub open spec fn keeps_tree(self, name: Option<Seq<char>>, entries: Set<EntryId>) -> bool {
        name is Some && exists|id: EntryId| #[trigger]
            entries.contains(id) && id.label_text() == name->0
    }

    /// Whether a sweep keeps what lies under a name among the content, when
    /// the history names that content.
    pub open spec fn keeps_blob(self, name: Option<Seq<char>>, content: Set<files::Hash>) -> bool {
        name is Some && (TAKING@.is_prefix_of(name->0) || exists|hash: files::Hash|
            #[trigger] hash.file_text() == bare(name->0) && (content.contains(hash)
                || self.pending.contains_key(hash)))
    }
}

/// A name without the ending of a transfer that has not finished.
pub open spec fn bare(name: Seq<char>) -> Seq<char> {
    if PARTIAL@.is_suffix_of(name) {
        name.take(name.len() - PARTIAL@.len())
    } else {
        name
    }
}

/// The last `n` base16 digits of a number.
pub open spec fn sixteen(number: nat, n: nat) -> Seq<char>
    decreases n,
{
    if n == 0 {
        Seq::empty()
    } else {
        sixteen(number / 16, (n - 1) as nat).push(encoding::hex_symbol((number % 16) as int))
    }
}

/// `rand::random` gives some number. Nothing is claimed of which.
#[verifier::external_body]
fn random_number() -> (number: u64) {
    rand::random()
}

/// A base16 digit.
fn hex_digit(value: u8) -> (digit: char)
    requires
        value < 16,
    ensures
        digit == encoding::hex_symbol(value as int),
{
    let code: u8 = if value < 10 {
        0x30 + value
    } else {
        0x57 + value
    };
    code as char
}

/// The sixteen base16 digits of a number.
fn hex_digits(number: u64) -> (digits: Vec<char>)
    ensures
        digits@ == sixteen(number as nat, 16),
{
    digits_of(number, 16)
}

/// The last `n` base16 digits of a number.
fn digits_of(number: u64, n: usize) -> (digits: Vec<char>)
    ensures
        digits@ == sixteen(number as nat, n as nat),
    decreases n,
{
    if n == 0 {
        return Vec::new();
    }
    let mut digits = digits_of(number / 16, n - 1);
    digits.push(hex_digit((number % 16) as u8));
    digits
}

/// The name of a file, as text where it is text.
pub open spec fn name_view(name: Option<&str>) -> Option<Seq<char>> {
    match name {
        Some(name) => Some(name@),
        None => None,
    }
}

impl Store {
    /// Whether the reservations are in order.
    pub closed spec fn wf(&self) -> bool {
        self.pending.wf() && counted(self.pending@)
    }

    /// The spool under a directory, with nothing reserved.
    pub fn new(root: &[u8]) -> (store: Self)
        ensures
            store.wf(),
            store@.blobs == below(root@, "blobs"@),
            store@.trees == below(root@, "trees"@),
            store@.pending == Map::<files::Hash, usize>::empty(),
    {
        Store {
            blobs: join(root, "blobs".as_bytes()),
            trees: join(root, "trees".as_bytes()),
            pending: OrdMap::new(),
        }
    }

    /// Where the content lies.
    pub fn blobs(&self) -> (path: &[u8])
        ensures
            path@ == self@.blobs,
    {
        self.blobs.as_slice()
    }

    /// Where the trees lie.
    pub fn trees(&self) -> (path: &[u8])
        ensures
            path@ == self@.trees,
    {
        self.trees.as_slice()
    }

    /// Where the content of `hash` is, whether or not it is there.
    pub fn blob(&self, hash: files::Hash) -> (path: Vec<u8>)
        ensures
            path@ == self@.blob(hash),
    {
        let name = hash.file_name();
        join(self.blobs.as_slice(), name.as_str().as_bytes())
    }

    /// Where an entry's files are laid out.
    pub fn tree(&self, id: EntryId) -> (path: Vec<u8>)
        ensures
            path@ == self@.tree(id),
    {
        let name = id.label();
        join(self.trees.as_slice(), name.as_str().as_bytes())
    }

    /// Where the transfer of `hash` is until it has finished.
    pub fn partial(&self, hash: files::Hash) -> (path: Vec<u8>)
        ensures
            path@ == self@.partial(hash),
    {
        let mut name = hash.file_name();
        name.append(PARTIAL);
        join(self.blobs.as_slice(), name.as_str().as_bytes())
    }

    /// How many manifests are yet to name some content.
    pub fn reservations(&self, hash: files::Hash) -> (count: usize)
        requires
            self.wf(),
        ensures
            count == reserved(self@.pending, hash),
    {
        match self.pending.get(&hash) {
            Some(count) => *count,
            None => 0,
        }
    }

    /// Where a file being copied into the spool is until it is named by what
    /// it turned out to be: some name among the content that no content has.
    pub fn taking(&self) -> (path: Vec<u8>)
        ensures
            exists|number: u64| path@ == #[trigger] self@.taking(number),
    {
        let number: u64 = random_number();
        self.taking_under(number)
    }

    /// The name a file being copied into the spool has under a number.
    pub fn taking_under(&self, number: u64) -> (path: Vec<u8>)
        ensures
            path@ == self@.taking(number),
    {
        let mut name = String::new();
        name.append(TAKING);
        let digits = hex_digits(number);
        let rest = text::text_of(digits.as_slice());
        name.append(rest.as_str());
        join(self.blobs.as_slice(), name.as_str().as_bytes())
    }

    /// Keeps content safe from a sweep until [`Self::release`] publishes the
    /// manifest that names it.
    pub fn reserve(&mut self, hash: files::Hash)
        requires
            old(self).wf(),
            reserved(old(self)@.pending, hash) < usize::MAX,
        ensures
            final(self).wf(),
            final(self)@ == (StoreView {
                pending: reserve_one(old(self)@.pending, hash),
                ..old(self)@
            }),
    {
        let count: usize = self.reservations(hash);
        self.pending.insert(hash, count + 1);
    }

    /// Allows content named by a newly recorded manifest to be swept again.
    pub fn release(&mut self, list: &[FileRef])
        requires
            old(self).wf(),
            all_reserved(old(self)@.pending, files::manifest(list@)),
        ensures
            final(self).wf(),
            final(self)@ == (StoreView {
                pending: release_all(old(self)@.pending, files::manifest(list@)),
                ..old(self)@
            }),
    {
        let ghost all = files::manifest(list@);
        let ghost start = self.pending@;
        let mut i: usize = 0;
        while i < list.len()
            invariant
                i <= list.len(),
                all == files::manifest(list@),
                self.wf(),
                self.blobs == old(self).blobs,
                self.trees == old(self).trees,
                all_reserved(start, all),
                self.pending@ == release_all(start, all.take(i as int)),
            decreases list.len() - i,
        {
            let hash = list[i].hash;
            assert(all[i as int].hash == hash);
            assert(self.pending@.contains_key(hash));
            let count: usize = self.reservations(hash);
            if count <= 1 {
                self.pending.remove(&hash);
            } else {
                self.pending.insert(hash, count - 1);
            }
            assert(all.take(i + 1).drop_last() =~= all.take(i as int));
            i += 1;
        }
        assert(all.take(i as int) =~= all);
    }

    /// Whether a sweep keeps the tree of that name, when the history holds
    /// those entries.
    pub fn keeps_tree(&self, name: Option<&str>, entries: &OrdMap<EntryId, ()>) -> (keeps: bool)
        requires
            entries.wf(),
        ensures
            keeps == self@.keeps_tree(name_view(name), entries@.dom()),
    {
        let wanted = match name {
            Some(wanted) => wanted,
            None => {
                return false;
            },
        };
        proof {
            entries.lemma_pairs();
        }
        let n: usize = entries.len();
        let mut i: usize = 0;
        while i < n
            invariant
                i <= n,
                n == entries.pairs().len(),
                entries.wf(),
                name == Some(wanted),
                forall|j: int|
                    0 <= j < i ==> (#[trigger] entries.pairs()[j]).0.label_text() != wanted@,
            decreases n - i,
        {
            let id = entries.key_at(i);
            let label = id.label();
            if text::same(label.as_str(), wanted) {
                proof {
                    entries.lemma_pairs();
                    assert(entries@.contains_key(id));
                    assert(entries@.dom().contains(id));
                }
                return true;
            }
            i += 1;
        }
        assert forall|id: EntryId| #[trigger] entries@.dom().contains(id) implies id.label_text()
            != wanted@ by {
            entries.lemma_pairs();
            assert(entries@.contains_key(id));
            let j = choose|j: int|
                0 <= j < entries.pairs().len() && (#[trigger] entries.pairs()[j]) == (
                    id,
                    entries@[id],
                );
            assert(entries.pairs()[j].0 == id);
        }
        false
    }

    /// Whether a sweep keeps what lies under a name among the content, when
    /// the history names that content.
    ///
    /// The name is read back as the hash it says it is, so a transfer that has
    /// not finished is swept by the same rule as the content it will become,
    /// and a name that is neither goes as the junk it is.
    pub fn keeps_blob(&self, name: Option<&str>, content: &OrdMap<files::Hash, ()>) -> (keeps: bool)
        requires
            self.wf(),
            content.wf(),
        ensures
            keeps == self@.keeps_blob(name_view(name), content@.dom()),
    {
        let name = match name {
            Some(name) => name,
            None => {
                return false;
            },
        };
        if is_taking(name) {
            return true;
        }
        let stem = without_partial(name);
        match files::Hash::parse(stem.as_str()) {
            Some(hash) => {
                assert forall|other: files::Hash| #[trigger] other.file_text() == bare(
                    name@,
                ) implies other == hash by {
                    files::a_spooled_name_is_read_back(other, hash);
                }
                content.contains_key(&hash) || self.pending.contains_key(&hash)
            },
            None => false,
        }
    }
}

/// Whether a name among the content is that of a copy that never finished.
/// Nothing can be in the middle of being taken before the daemon starts, so
/// whatever it finds then is from one that died.
pub fn is_taking(name: &str) -> (r: bool)
    ensures
        r == TAKING@.is_prefix_of(name@),
{
    text::starts_with(name, TAKING)
}

/// A name without the ending of a transfer that has not finished.
fn without_partial(name: &str) -> (stem: String)
    ensures
        stem@ == bare(name@),
{
    let chars = text::chars_of(name);
    let ending = text::chars_of(PARTIAL);
    let n: usize = chars.len();
    if n < ending.len() {
        proof {
            assert(!PARTIAL@.is_suffix_of(name@));
        }
        return text::text_of(chars.as_slice());
    }
    let at: usize = n - ending.len();
    let mut i: usize = 0;
    while i < ending.len()
        invariant
            i <= ending.len(),
            n == chars.len(),
            at + ending.len() == n,
            chars@ == name@,
            ending@ == PARTIAL@,
            forall|j: int| 0 <= j < i ==> #[trigger] ending@[j] == chars@[at + j],
        decreases ending.len() - i,
    {
        if chars[at + i] != ending[i] {
            proof {
                assert(name@.subrange(at as int, n as int)[i as int] != PARTIAL@[i as int]);
                assert(!PARTIAL@.is_suffix_of(name@));
            }
            return text::text_of(chars.as_slice());
        }
        i += 1;
    }
    assert(PARTIAL@ =~= name@.subrange(at as int, n as int));
    let stem = vstd::slice::slice_subrange(chars.as_slice(), 0, at);
    assert(stem@ =~= name@.take(at as int));
    text::text_of(stem)
}

/// The reservations once one more manifest is to name each file of a list.
pub open spec fn reserve_all(
    pending: Map<files::Hash, usize>,
    list: Seq<files::FileName>,
) -> Map<files::Hash, usize>
    decreases list.len(),
{
    if list.len() == 0 {
        pending
    } else {
        reserve_one(reserve_all(pending, list.drop_last()), list.last().hash)
    }
}

/// How often a list names some content.
pub open spec fn times(list: Seq<files::FileName>, hash: files::Hash) -> nat
    decreases list.len(),
{
    if list.len() == 0 {
        0
    } else {
        times(list.drop_last(), hash) + (if list.last().hash == hash {
            1nat
        } else {
            0nat
        })
    }
}

/// Whether the reservations of every file of a list can be counted.
pub open spec fn countable(pending: Map<files::Hash, usize>, list: Seq<files::FileName>) -> bool {
    forall|hash: files::Hash| reserved(pending, hash) + #[trigger] times(list, hash) <= usize::MAX
}

proof fn lemma_times_of_part(list: Seq<files::FileName>, n: int, hash: files::Hash)
    requires
        0 <= n <= list.len(),
    ensures
        times(list.take(n), hash) <= times(list, hash),
        n < list.len() && list[n].hash == hash ==> times(list.take(n), hash) < times(list, hash),
    decreases list.len(),
{
    if n == list.len() {
        assert(list.take(n) =~= list);
    } else if n == list.len() - 1 {
        assert(list.take(n) =~= list.drop_last());
    } else {
        lemma_times_of_part(list.drop_last(), n, hash);
        assert(list.drop_last().take(n) =~= list.take(n));
    }
}

proof fn lemma_reserve_all(pending: Map<files::Hash, usize>, list: Seq<files::FileName>)
    requires
        counted(pending),
        countable(pending, list),
    ensures
        counted(reserve_all(pending, list)),
        forall|hash: files::Hash| #[trigger]
            reserved(reserve_all(pending, list), hash) == reserved(pending, hash) + times(list, hash),
    decreases list.len(),
{
    if list.len() > 0 {
        let rest = list.drop_last();
        assert forall|hash: files::Hash| reserved(pending, hash) + #[trigger] times(rest, hash)
            <= usize::MAX by {
            lemma_times_of_part(list, list.len() - 1, hash);
            assert(list.take(list.len() - 1) =~= rest);
        }
        lemma_reserve_all(pending, rest);
        let before = reserve_all(pending, rest);
        let last = list.last().hash;
        assert(reserved(pending, last) + times(list, last) <= usize::MAX);
        assert forall|hash: files::Hash| #[trigger]
            reserved(reserve_all(pending, list), hash) == reserved(pending, hash) + times(
            list,
            hash,
        ) by {
            assert(reserved(before, hash) == reserved(pending, hash) + times(rest, hash));
        }
    }
}

proof fn lemma_release_all(pending: Map<files::Hash, usize>, list: Seq<files::FileName>)
    requires
        counted(pending),
        forall|hash: files::Hash| #[trigger] times(list, hash) <= reserved(pending, hash),
    ensures
        counted(release_all(pending, list)),
        forall|hash: files::Hash| #[trigger]
            reserved(release_all(pending, list), hash) == reserved(pending, hash) - times(list, hash),
    decreases list.len(),
{
    if list.len() > 0 {
        let rest = list.drop_last();
        assert forall|hash: files::Hash| #[trigger] times(rest, hash) <= reserved(pending, hash) by {
            lemma_times_of_part(list, list.len() - 1, hash);
            assert(list.take(list.len() - 1) =~= rest);
            assert(times(list, hash) <= reserved(pending, hash));
        }
        lemma_release_all(pending, rest);
        let before = release_all(pending, rest);
        let last = list.last().hash;
        assert(times(list, last) <= reserved(pending, last));
        assert forall|hash: files::Hash| #[trigger]
            reserved(release_all(pending, list), hash) == reserved(pending, hash) - times(
            list,
            hash,
        ) by {
            assert(reserved(before, hash) == reserved(pending, hash) - times(rest, hash));
        }
    }
}

/// What was reserved for a selection can be released, and releasing it leaves
/// the spool as it was: a selection is taken whole or not at all.
pub proof fn what_was_reserved_is_released(
    pending: Map<files::Hash, usize>,
    list: Seq<files::FileName>,
)
    requires
        counted(pending),
        countable(pending, list),
    ensures
        all_reserved(reserve_all(pending, list), list),
        release_all(reserve_all(pending, list), list) == pending,
{
    lemma_reserve_all(pending, list);
    let full = reserve_all(pending, list);
    assert forall|hash: files::Hash| #[trigger] times(list, hash) <= reserved(full, hash) by {
        assert(reserved(full, hash) == reserved(pending, hash) + times(list, hash));
    }
    assert forall|n: int| 0 <= n < list.len() implies release_all(
        full,
        #[trigger] list.take(n),
    ).contains_key(list[n].hash) by {
        let part = list.take(n);
        let hash = list[n].hash;
        assert forall|h: files::Hash| #[trigger] times(part, h) <= reserved(full, h) by {
            lemma_times_of_part(list, n, h);
            assert(times(list, h) <= reserved(full, h));
        }
        lemma_release_all(full, part);
        lemma_times_of_part(list, n, hash);
        assert(reserved(release_all(full, part), hash) == reserved(full, hash) - times(part, hash));
        assert(times(list, hash) <= reserved(full, hash));
    }
    lemma_release_all(full, list);
    let empty = release_all(full, list);
    assert forall|hash: files::Hash| reserved(empty, hash) == #[trigger] reserved(
        pending,
        hash,
    ) by {
        assert(reserved(empty, hash) == reserved(full, hash) - times(list, hash));
        assert(reserved(full, hash) == reserved(pending, hash) + times(list, hash));
    }
    assert forall|hash: files::Hash| #[trigger] empty.dom().contains(hash) == pending.dom().contains(
        hash,
    ) by {
        assert(reserved(empty, hash) == reserved(pending, hash));
        assert(pending.contains_key(hash) ==> pending[hash] > 0);
        assert(empty.contains_key(hash) ==> empty[hash] > 0);
    }
    assert(empty.dom() =~= pending.dom());
    assert forall|hash: files::Hash| #[trigger] empty.contains_key(hash) implies empty[hash]
        == pending[hash] by {
        assert(reserved(empty, hash) == reserved(pending, hash));
        assert(pending.dom().contains(hash));
    }
    assert(empty =~= pending);
}

/// Content reserved for a manifest survives a sweep that knows nothing of it,
/// under its own name and as a transfer that has not finished.
pub proof fn a_reserved_blob_survives(store: StoreView, hash: files::Hash, content: Set<files::Hash>)
    requires
        store.pending.contains_key(hash),
    ensures
        store.keeps_blob(Some(hash.file_text()), content),
        store.keeps_blob(Some(hash.file_text() + PARTIAL@), content),
{
    lemma_bare(hash.file_text());
}

/// What the history names survives a sweep.
pub proof fn sweeping_keeps_what_the_history_names(
    store: StoreView,
    hash: files::Hash,
    content: Set<files::Hash>,
    id: EntryId,
    entries: Set<EntryId>,
)
    ensures
        content.contains(hash) ==> store.keeps_blob(Some(hash.file_text()), content),
        entries.contains(id) ==> store.keeps_tree(Some(id.label_text()), entries),
{
    lemma_bare(hash.file_text());
}

/// What neither the history nor a manifest to come names is swept, and so is
/// what has no name that is text.
pub proof fn sweeping_drops_the_rest(
    store: StoreView,
    hash: files::Hash,
    content: Set<files::Hash>,
    entries: Set<EntryId>,
)
    requires
        !content.contains(hash),
        !store.pending.contains_key(hash),
    ensures
        !store.keeps_blob(Some(hash.file_text()), content),
        !store.keeps_blob(Some(hash.file_text() + PARTIAL@), content),
        !store.keeps_blob(None, content),
        !store.keeps_tree(None, entries),
{
    lemma_bare(hash.file_text());
    files::lemma_hex_digits(hash);
    reveal_strlit("taking-");
    reveal_strlit(".part");
    let name = hash.file_text();
    assert(name.len() == 64);
    assert(name[0] != 't');
    assert((name + PARTIAL@)[0] == name[0]);
    if TAKING@.is_prefix_of(name) {
        assert(TAKING@[0] == name.subrange(0, TAKING@.len() as int)[0]);
    }
    if TAKING@.is_prefix_of(name + PARTIAL@) {
        assert(TAKING@[0] == (name + PARTIAL@).subrange(0, TAKING@.len() as int)[0]);
    }
    assert forall|other: files::Hash| #[trigger] other.file_text() == name implies other == hash by {
        files::a_spooled_name_is_read_back(other, hash);
    }
}

proof fn lemma_bare(name: Seq<char>)
    requires
        exists|hash: files::Hash| #[trigger] hash.file_text() == name,
    ensures
        bare(name) == name,
        bare(name + PARTIAL@) == name,
{
    let hash = choose|hash: files::Hash| #[trigger] hash.file_text() == name;
    files::lemma_hex_digits(hash);
    reveal_strlit(".part");
    assert(name.len() == 64);
    if PARTIAL@.is_suffix_of(name) {
        assert(PARTIAL@[0] == name.subrange(name.len() - PARTIAL@.len(), name.len() as int)[0]);
        assert(name[59] == '.');
    }
    let whole = name + PARTIAL@;
    assert(PARTIAL@ =~= whole.subrange(whole.len() - PARTIAL@.len(), whole.len() as int));
    assert(whole.take(whole.len() - PARTIAL@.len()) =~= name);
}

/// Content lies under the name of its hash, one place to each: no two kinds of
/// content share one.
pub proof fn content_lies_under_its_own_name(store: StoreView, a: files::Hash, b: files::Hash)
    requires
        store.blobs.len() > 0,
        store.blobs.last() != 0x2f,
    ensures
        store.blob(a) == store.blobs + seq![0x2fu8] + vstd::utf8::encode_utf8(a.file_text()),
        store.blob(a) == store.blob(b) ==> a == b,
        store.partial(a) == store.blobs + seq![0x2fu8] + vstd::utf8::encode_utf8(
            a.file_text() + ".part"@,
        ),
        store.partial(a) != store.blob(b),
{
    let one = a.file_text();
    let two = b.file_text();
    let part = one + ".part"@;
    files::lemma_hex_digits(a);
    files::lemma_hex_digits(b);
    reveal_strlit(".part");
    lemma_name_below(store.blobs, one);
    lemma_name_below(store.blobs, two);
    assert(part[0] == one[0]);
    lemma_name_below(store.blobs, part);
    let base = store.blobs + seq![0x2fu8];
    if store.blob(a) == store.blob(b) {
        lemma_same_tail(base, vstd::utf8::encode_utf8(one), vstd::utf8::encode_utf8(two));
        vstd::utf8::encode_utf8_decode_utf8(one);
        vstd::utf8::encode_utf8_decode_utf8(two);
        files::a_spooled_name_is_read_back(a, b);
    }
    if store.partial(a) == store.blob(b) {
        lemma_same_tail(base, vstd::utf8::encode_utf8(part), vstd::utf8::encode_utf8(two));
        vstd::utf8::encode_utf8_decode_utf8(part);
        vstd::utf8::encode_utf8_decode_utf8(two);
        assert(part.len() == two.len());
    }
}

proof fn lemma_same_tail(base: Seq<u8>, a: Seq<u8>, b: Seq<u8>)
    requires
        base + a == base + b,
    ensures
        a == b,
{
    let x = base + a;
    let y = base + b;
    assert(a.len() == b.len()) by {
        assert(x.len() == y.len());
    }
    assert forall|i: int| 0 <= i < a.len() implies a[i] == b[i] by {
        assert(x[base.len() + i] == y[base.len() + i]);
    }
    assert(a =~= b);
}

proof fn lemma_name_below(base: Seq<u8>, name: Seq<char>)
    requires
        base.len() > 0,
        base.last() != 0x2f,
        name.len() > 0,
        name[0] != '/',
    ensures
        below(base, name) == base + seq![0x2fu8] + vstd::utf8::encode_utf8(name),
{
    let bytes = vstd::utf8::encode_utf8(name);
    vstd::utf8::encode_utf8_first_scalar(name);
    if bytes.len() > 0 && bytes[0] == 0x2f {
        assert((0x2fu8 & 0x7fu8) == 0x2fu8) by (bit_vector);
        assert(vstd::utf8::codepoint_width_1(0x2f) == 0x2f);
        vstd::utf8::char_is_scalar(name[0]);
        vstd::utf8::char_u32_cast(name[0], 0x2f);
    }
    assert(base.push(0x2f) + bytes =~= base + seq![0x2fu8] + bytes);
}

/// What is being copied into the spool is never swept.
pub proof fn sweeping_leaves_what_is_being_taken(
    store: StoreView,
    rest: Seq<char>,
    content: Set<files::Hash>,
)
    ensures
        store.keeps_blob(Some("taking-"@ + rest), content),
{
    let name = "taking-"@ + rest;
    assert("taking-"@ =~= name.subrange(0, "taking-"@.len() as int));
}

/// Reserving content counts it once more, and releasing it once less, and
/// neither counts any other.
pub proof fn reservations_are_counted(
    pending: Map<files::Hash, usize>,
    hash: files::Hash,
    other: files::Hash,
)
    requires
        reserved(pending, hash) < usize::MAX,
        other != hash,
    ensures
        reserved(reserve_one(pending, hash), hash) == reserved(pending, hash) + 1,
        reserved(reserve_one(pending, hash), other) == reserved(pending, other),
        reserved(pending, hash) > 0 ==> reserved(release_one(pending, hash), hash) == reserved(
            pending,
            hash,
        ) - 1,
        reserved(release_one(pending, hash), other) == reserved(pending, other),
        reserve_one(pending, hash).contains_key(hash),
{
}


} // verus!
