//! Files on the clipboard.
//!
//! Copying a file puts no file on the clipboard. It puts a path, under
//! `text/uri-list`, and the pasting application is what opens it. That works
//! because both ends share a filesystem; across machines they do not, so a
//! path copied here is at best missing there and at worst a different file.
//! The reference is turned into content:
//!
//! ```text
//!   copy   paths ──► spool, one file per hash ──► manifest in the entry
//!   paste  manifest ──► fetch the hashes from a peer ──► tree of links
//!                                                    └─► text/uri-list
//! ```
//!
//! The manifest is small and rides the log like any other entry. The bytes
//! do not: they are named by hash, pulled from whoever has them, and never
//! enter the log.
//!
//! A path is its bytes, as the file system has them.

pub mod manifest;
pub mod store;
pub mod transfer;
pub mod uri;

pub mod walk;

pub use manifest::{total, validate, ManifestError};
pub use uri::{as_text, gnome_copied_files, paths, uri_list};

use crate::encoding;
use crate::ordmap::{Place, Ranked};
use crate::text;
use crate::word::Word;
use vstd::prelude::*;

verus! {

/// The blake3 hash of some bytes.
pub uninterp spec fn blake3_hash(bytes: Seq<u8>) -> Seq<u8>;

/// `blake3::hash` hashes the bytes, to thirty-two bytes that depend on them
/// alone.
#[verifier::external_body]
pub(crate) fn hash_bytes(bytes: &[u8]) -> (hash: [u8; 32])
    ensures
        hash@ == blake3_hash(bytes@),
{
    *blake3::hash(bytes).as_bytes()
}

/// The name of some content: the blake3 hash of the bytes.
///
/// Content-addressed rather than named, so a file already spooled under
/// another entry is never fetched twice, and so a transfer that ends with the
/// wrong bytes is caught by the name it was asked for.
#[derive(Clone, Copy, Debug, PartialEq, Eq, Structural)]
pub struct Hash {
    pub word: Word,
}

impl Ranked for Hash {
    open spec fn rank(self) -> int {
        self.word.rank()
    }

    proof fn rank_is_unique(a: Self, b: Self) {
        Word::rank_is_unique(a.word, b.word);
    }

    fn place(&self, other: &Self) -> (place: Place) {
        self.word.place(&other.word)
    }
}

/// One file a selection names.
#[derive(Debug)]
pub struct FileRef {
    /// Where the file sits under the entry's root: `photos/a.png`. Always
    /// relative, and never climbing out of it (see [`Self::is_safe`]); it is a
    /// path a peer wrote, and it is used to create files.
    pub path: String,
    pub size: u64,
    pub hash: Hash,
}

/// What a file reference says.
pub struct FileName {
    pub path: Seq<char>,
    pub size: u64,
    pub hash: Hash,
}

impl View for FileRef {
    type V = FileName;

    open spec fn view(&self) -> FileName {
        FileName { path: self.path@, size: self.size, hash: self.hash }
    }
}

/// What some file references say.
pub open spec fn manifest(files: Seq<FileRef>) -> Seq<FileName> {
    files.map_values(|file: FileRef| file@)
}

impl Clone for FileRef {
    fn clone(&self) -> (other: Self)
        ensures
            other@ == self@,
    {
        FileRef { path: self.path.clone(), size: self.size, hash: self.hash }
    }
}

/// The same file references again.
pub fn clone_files(files: &[FileRef]) -> (copy: Vec<FileRef>)
    ensures
        manifest(copy@) == manifest(files@),
{
    let mut copy: Vec<FileRef> = Vec::new();
    let mut i: usize = 0;
    while i < files.len()
        invariant
            i <= files.len(),
            manifest(copy@) == manifest(files@).take(i as int),
        decreases files.len() - i,
    {
        let ghost before = manifest(copy@);
        copy.push(files[i].clone());
        assert(manifest(copy@) =~= before.push(files@[i as int]@));
        i += 1;
        assert(manifest(copy@) =~= manifest(files@).take(i as int));
    }
    assert(manifest(copy@) =~= manifest(files@));
    copy
}

impl Hash {
    /// The hash of a whole buffer.
    pub fn of(bytes: &[u8]) -> (hash: Hash)
        ensures
            hash.word.bytes() == blake3_hash(bytes@),
    {
        let hash = hash_bytes(bytes);
        Hash { word: Word::from_bytes(&hash) }
    }

    /// The thirty-two bytes of the hash.
    pub fn to_bytes(&self) -> (bytes: [u8; 32])
        ensures
            bytes@ == self.word.bytes(),
    {
        self.word.to_bytes()
    }

    /// The file name the content is spooled under.
    pub open spec fn file_text(self) -> Seq<char> {
        encoding::hex(self.word.bytes())
    }

    /// The file name the content is spooled under.
    pub fn file_name(&self) -> (name: String)
        ensures
            name@ == self.file_text(),
    {
        let bytes = self.word.to_bytes();
        encoding::hex_encode(bytes.as_slice())
    }

    /// The first sixteen digits of the hash, to show.
    pub fn short(&self) -> (text: String)
        ensures
            text@ == self.file_text().take(16),
    {
        proof {
            self.word.lemma_bytes();
            assert(self.file_text().len() == 64);
        }
        let name = self.file_name();
        let chars = text::chars_of(name.as_str());
        let mut short = String::new();
        let mut i: usize = 0;
        while i < 16
            invariant
                i <= 16,
                chars@ == self.file_text(),
                chars@.len() == 64,
                short@ == chars@.take(i as int),
            decreases 16 - i,
        {
            short.push(chars[i]);
            i += 1;
            assert(short@ =~= chars@.take(i as int));
        }
        short
    }

    /// The hash a spooled file's name says it is, if it says one at all.
    pub fn parse(name: &str) -> (hash: Option<Hash>)
        ensures
            match hash {
                Some(hash) => hash.file_text() == name@,
                None => forall|hash: Hash| (#[trigger] hash.file_text()) != name@,
            },
    {
        assert forall|hash: Hash| (#[trigger] hash.file_text()) == name@ implies vstd::utf8::encode_utf8(
            name@,
        ).len() == 64 by {
            hash.word.lemma_bytes();
            lemma_hex_is_ascii(hash.word.bytes());
        }
        if name.as_bytes().len() != 64 {
            return None;
        }
        match encoding::hex_decode(name) {
            None => {
                assert forall|hash: Hash| (#[trigger] hash.file_text()) != name@ by {
                    assert(encoding::hex(hash.word.bytes()) != name@);
                }
                None
            },
            Some(bytes) => {
                if bytes.len() != 32 {
                    assert forall|hash: Hash| (#[trigger] hash.file_text()) != name@ by {
                        hash.word.lemma_bytes();
                        if hash.file_text() == name@ {
                            encoding::lemma_hex_is_unique(hash.word.bytes(), bytes@);
                        }
                    }
                    return None;
                }
                let mut array: [u8; 32] = [0u8;32];
                let mut i: usize = 0;
                while i < 32
                    invariant
                        i <= 32,
                        bytes@.len() == 32,
                        forall|j: int| 0 <= j < i ==> #[trigger] array@[j] == bytes@[j],
                    decreases 32 - i,
                {
                    array[i] = bytes[i];
                    i += 1;
                }
                assert(array@ =~= bytes@);
                Some(Hash { word: Word::from_bytes(&array) })
            },
        }
    }
}

proof fn lemma_hex_is_ascii(bytes: Seq<u8>)
    ensures
        vstd::utf8::encode_utf8(encoding::hex(bytes)).len() == 2 * bytes.len(),
{
    let name = encoding::hex(bytes);
    assert forall|i: int| 0 <= i < name.len() implies (#[trigger] name[i] as nat) < 128 by {
        let value = if i % 2 == 0 {
            bytes[i / 2] as int / 16
        } else {
            bytes[i / 2] as int % 16
        };
        assert(name[i] == encoding::hex_symbol(value));
    }
    vstd::utf8::is_ascii_chars_encode_utf8(name);
}

/// Reading a spooled name back gives the hash it was made of.
pub proof fn a_spooled_name_is_read_back(a: Hash, b: Hash)
    requires
        a.file_text() == b.file_text(),
    ensures
        a == b,
{
    encoding::lemma_hex_is_unique(a.word.bytes(), b.word.bytes());
    Word::lemma_bytes_name_the_word(a.word, b.word);
}

/// The name content is spooled under is sixty-four digits.
pub proof fn lemma_hex_digits(hash: Hash)
    ensures
        hash.file_text().len() == 64,
        forall|i: int|
            0 <= i < 64 ==> '0' <= #[trigger] hash.file_text()[i] <= '9' || 'a'
                <= hash.file_text()[i] <= 'f',
{
    hash.word.lemma_bytes();
}

/// The parts of a text between separators.
pub open spec fn parts(path: Seq<char>, separator: char) -> Seq<Seq<char>>
    decreases path.len(),
{
    if path.len() == 0 {
        seq![Seq::empty()]
    } else {
        let rest = parts(path.drop_last(), separator);
        if path.last() == separator {
            rest.push(Seq::empty())
        } else {
            rest.update(rest.len() - 1, rest.last().push(path.last()))
        }
    }
}

proof fn lemma_parts(path: Seq<char>, separator: char)
    ensures
        parts(path, separator).len() > 0,
    decreases path.len(),
{
    if path.len() > 0 {
        lemma_parts(path.drop_last(), separator);
    }
}

/// Whether a path is one that may be created under a root: relative, with no
/// part that climbs out.
pub open spec fn safe(path: Seq<char>) -> bool {
    &&& path.len() > 0
    &&& !path.contains('\0')
    &&& path[0] != '/'
    &&& parts(path, '/')[0] != seq!['.']
    &&& forall|i: int|
        0 <= i < parts(path, '/').len() ==> #[trigger] parts(path, '/')[i] != seq!['.', '.']
}

/// Whether no part of a path is empty.
pub open spec fn normalized(path: Seq<char>) -> bool {
    forall|i: int| 0 <= i < parts(path, '/').len() ==> (#[trigger] parts(path, '/')[i]).len() > 0
}

/// The parts of a path.
fn split(path: &str) -> (list: Vec<Vec<char>>)
    ensures
        list@.len() > 0,
        views(list@) == parts(path@, '/'),
{
    let chars = text::chars_of(path);
    let mut list: Vec<Vec<char>> = Vec::new();
    let mut part: Vec<char> = Vec::new();
    let mut i: usize = 0;
    assert(views(list@).push(part@) =~= parts(path@.take(0), '/'));
    while i < chars.len()
        invariant
            i <= chars.len(),
            chars@ == path@,
            views(list@).push(part@) == parts(path@.take(i as int), '/'),
        decreases chars.len() - i,
    {
        let c = chars[i];
        let ghost before = views(list@);
        let ghost read = path@.take(i as int);
        assert(path@.take(i + 1).drop_last() =~= read);
        if c == '/' {
            list.push(part);
            assert(views(list@) =~= before.push(part@));
            part = Vec::new();
        } else {
            let ghost had = part@;
            part.push(c);
            assert(before.push(had).update(before.push(had).len() - 1, had.push(c)) =~= before.push(
                part@,
            ));
        }
        i += 1;
    }
    let ghost before = views(list@);
    list.push(part);
    assert(views(list@) =~= before.push(part@));
    assert(path@.take(i as int) =~= path@);
    list
}

/// The characters of some parts.
pub open spec fn views(list: Seq<Vec<char>>) -> Seq<Seq<char>> {
    list.map_values(|part: Vec<char>| part@)
}

impl FileRef {
    /// Whether the path is one this machine may create.
    ///
    /// The manifest comes from another machine, and the path in it is used to
    /// make a file: an absolute path, or one climbing out with `..`, would
    /// write wherever it liked.
    pub fn is_safe(&self) -> (r: bool)
        ensures
            r == safe(self.path@),
    {
        let chars = text::chars_of(self.path.as_str());
        if chars.len() == 0 || text::contains_char(self.path.as_str(), '\0') || chars[0] == '/' {
            return false;
        }
        let list = split(self.path.as_str());
        let ghost all = parts(self.path@, '/');
        assert(all[0] == list@[0]@);
        if list[0].len() == 1 && list[0][0] == '.' {
            assert(all[0] =~= seq!['.']);
            return false;
        }
        let mut i: usize = 0;
        while i < list.len()
            invariant
                i <= list.len(),
                all == parts(self.path@, '/'),
                views(list@) == all,
                forall|j: int| 0 <= j < i ==> #[trigger] all[j] != seq!['.', '.'],
            decreases list.len() - i,
        {
            assert(all[i as int] == list@[i as int]@);
            if list[i].len() == 2 && list[i][0] == '.' && list[i][1] == '.' {
                assert(all[i as int] =~= seq!['.', '.']);
                return false;
            }
            i += 1;
        }
        true
    }

    /// Whether no part of the path is empty.
    fn is_normalized(&self) -> (r: bool)
        ensures
            r == normalized(self.path@),
    {
        let list = split(self.path.as_str());
        let ghost all = parts(self.path@, '/');
        let mut i: usize = 0;
        while i < list.len()
            invariant
                i <= list.len(),
                all == parts(self.path@, '/'),
                views(list@) == all,
                forall|j: int| 0 <= j < i ==> (#[trigger] all[j]).len() > 0,
            decreases list.len() - i,
        {
            assert(all[i as int] == list@[i as int]@);
            if list[i].len() == 0 {
                return false;
            }
            i += 1;
        }
        true
    }
}

/// A path under another, or by itself when it is absolute.
pub open spec fn joined(base: Seq<u8>, path: Seq<u8>) -> Seq<u8> {
    if path.len() > 0 && path[0] == 0x2f {
        path
    } else if base.len() == 0 || base.last() == 0x2f {
        base + path
    } else {
        base.push(0x2f) + path
    }
}

/// A path under another, or by itself when it is absolute.
pub fn join(base: &[u8], path: &[u8]) -> (whole: Vec<u8>)
    ensures
        whole@ == joined(base@, path@),
{
    if path.len() > 0 && path[0] == 0x2f {
        return vstd::slice::slice_to_vec(path);
    }
    let mut whole: Vec<u8> = vstd::slice::slice_to_vec(base);
    if base.len() > 0 && base[base.len() - 1] != 0x2f {
        whole.push(0x2f);
    }
    uri::append(&mut whole, path);
    whole
}

/// Where a file lies once an entry is laid out under a tree.
pub open spec fn laid_out(tree: Seq<u8>, file: FileName) -> Seq<u8> {
    joined(tree, vstd::utf8::encode_utf8(file.path))
}

/// Where the files of an entry lie once it is laid out under a tree.
pub open spec fn all_laid_out(tree: Seq<u8>, files: Seq<FileName>) -> Seq<Seq<u8>> {
    files.map_values(|file: FileName| laid_out(tree, file))
}

/// Where the files of an entry lie once it is laid out under a tree.
pub fn places(tree: &[u8], files: &[FileRef]) -> (paths: Vec<Vec<u8>>)
    ensures
        uri::path_views(paths@) == all_laid_out(tree@, manifest(files@)),
{
    let ghost all = all_laid_out(tree@, manifest(files@));
    let mut paths: Vec<Vec<u8>> = Vec::new();
    let mut i: usize = 0;
    while i < files.len()
        invariant
            i <= files.len(),
            all == all_laid_out(tree@, manifest(files@)),
            uri::path_views(paths@) == all.take(i as int),
        decreases files.len() - i,
    {
        let ghost before = uri::path_views(paths@);
        let path = join(tree, files[i].path.as_str().as_bytes());
        paths.push(path);
        assert(uri::path_views(paths@) =~= before.push(path@));
        assert(all[i as int] == path@);
        i += 1;
        assert(uri::path_views(paths@) =~= all.take(i as int));
    }
    assert(uri::path_views(paths@) =~= all);
    paths
}

/// Some parts put together, with a separator between each two.
pub open spec fn put_together(parts: Seq<Seq<char>>, separator: char) -> Seq<char>
    decreases parts.len(),
{
    if parts.len() == 0 {
        Seq::empty()
    } else if parts.len() == 1 {
        parts[0]
    } else {
        put_together(parts.drop_last(), separator).push(separator) + parts.last()
    }
}

/// The parts of a text are what is between its separators and nothing else: put
/// together with the separators between they are the text, and no part holds
/// one.
pub proof fn the_parts_make_up_the_whole(path: Seq<char>, separator: char)
    ensures
        parts(path, separator).len() > 0,
        put_together(parts(path, separator), separator) == path,
        forall|i: int|
            0 <= i < parts(path, separator).len() ==> !(#[trigger] parts(
                path,
                separator,
            )[i]).contains(separator),
    decreases path.len(),
{
    let all = parts(path, separator);
    if path.len() == 0 {
        assert(put_together(all, separator) =~= path);
    } else {
        let rest = path.drop_last();
        the_parts_make_up_the_whole(rest, separator);
        let before = parts(rest, separator);
        if path.last() == separator {
            assert(all.drop_last() =~= before);
            assert(put_together(all, separator) =~= path);
            assert forall|i: int| 0 <= i < all.len() implies !(#[trigger] all[i]).contains(
                separator,
            ) by {
                if i < before.len() {
                    assert(all[i] == before[i]);
                }
            }
        } else {
            let less = before.drop_last();
            assert(all.drop_last() =~= less);
            assert(put_together(all, separator) =~= put_together(before, separator).push(
                path.last(),
            ));
            assert(rest.push(path.last()) =~= path);
            assert forall|i: int| 0 <= i < all.len() implies !(#[trigger] all[i]).contains(
                separator,
            ) by {
                if i < less.len() {
                    assert(all[i] == before[i]);
                } else {
                    let last = before.last();
                    assert(before[before.len() - 1] == last);
                    let whole = last.push(path.last());
                    assert(all[i] == whole);
                    if whole.contains(separator) {
                        let k = choose|k: int| 0 <= k < whole.len() && whole[k] == separator;
                        assert(last[k] == separator);
                        assert(last.contains(separator));
                    }
                }
            }
        }
    }
}

/// Whether a name is an ordinary one for a file: there is something of it, it
/// holds no separator and no zero, and it is neither `.` nor `..`.
pub open spec fn ordinary(name: Seq<char>) -> bool {
    &&& name.len() > 0
    &&& !name.contains('/')
    &&& !name.contains('\0')
    &&& name != seq!['.']
    &&& name != seq!['.', '.']
}

/// A path made of ordinary names is one that may be created under a root; and
/// no path that may be has a part that climbs out, begins at the root, or holds
/// a zero.
pub proof fn a_path_of_ordinary_names_is_safe(names: Seq<Seq<char>>)
    requires
        names.len() > 0,
        forall|i: int| 0 <= i < names.len() ==> ordinary(#[trigger] names[i]),
    ensures
        parts(put_together(names, '/'), '/') == names,
        safe(put_together(names, '/')),
        normalized(put_together(names, '/')),
{
    lemma_put_together(names);
    let path = put_together(names, '/');
    assert(parts(path, '/')[0] == names[0]);
    lemma_first_char(names);
}

proof fn lemma_first_char(names: Seq<Seq<char>>)
    requires
        names.len() > 0,
        forall|i: int| 0 <= i < names.len() ==> ordinary(#[trigger] names[i]),
    ensures
        put_together(names, '/').len() > 0,
        put_together(names, '/')[0] != '/',
        !put_together(names, '/').contains('\0'),
    decreases names.len(),
{
    let path = put_together(names, '/');
    if names.len() == 1 {
        assert(ordinary(names[0]));
        assert(names[0].contains(names[0][0]));
    } else {
        let rest = names.drop_last();
        assert forall|i: int| 0 <= i < rest.len() implies ordinary(#[trigger] rest[i]) by {
            assert(rest[i] == names[i]);
        }
        lemma_first_char(rest);
        let head = put_together(rest, '/');
        let last = names.last();
        assert(ordinary(names[names.len() - 1]));
        assert(path[0] == head[0]);
        if path.contains('\0') {
            let k = choose|k: int| 0 <= k < path.len() && path[k] == '\0';
            if k < head.len() {
                assert(head[k] == '\0');
            } else if k > head.len() {
                assert(last[k - head.len() - 1] == '\0');
            }
        }
    }
}

proof fn lemma_put_together(names: Seq<Seq<char>>)
    requires
        names.len() > 0,
        forall|i: int| 0 <= i < names.len() ==> !(#[trigger] names[i]).contains('/'),
    ensures
        parts(put_together(names, '/'), '/') == names,
    decreases names.len(),
{
    if names.len() == 1 {
        let name = names[0];
        lemma_parts_more(Seq::empty(), name);
        assert(Seq::<char>::empty() + name =~= name);
        let none = parts(Seq::<char>::empty(), '/');
        assert(none.drop_last().push(none.last() + name) =~= names) by {
            assert(none.last() + name =~= name);
        }
    } else {
        let rest = names.drop_last();
        assert forall|i: int| 0 <= i < rest.len() implies !(#[trigger] rest[i]).contains('/') by {
            assert(rest[i] == names[i]);
        }
        lemma_put_together(rest);
        let head = put_together(rest, '/');
        let last = names.last();
        assert(!names[names.len() - 1].contains('/'));
        lemma_parts_more(head.push('/'), last);
        assert(head.push('/').drop_last() =~= head);
        let before = parts(head.push('/'), '/');
        assert(before =~= rest.push(Seq::empty()));
        assert(before.drop_last() =~= rest);
        assert(before.last() + last =~= last);
        assert(rest.push(last) =~= names);
    }
}

proof fn lemma_parts_more(path: Seq<char>, more: Seq<char>)
    requires
        !more.contains('/'),
    ensures
        parts(path + more, '/') == parts(path, '/').drop_last().push(
            parts(path, '/').last() + more,
        ),
    decreases more.len(),
{
    lemma_parts(path, '/');
    let before = parts(path, '/');
    if more.len() == 0 {
        assert(path + more =~= path);
        assert(before.last() + more =~= before.last());
        assert(before.drop_last().push(before.last()) =~= before);
    } else {
        let less = more.drop_last();
        assert forall|i: int| 0 <= i < less.len() implies less[i] != '/' by {
            assert(more.contains(more[i]));
        }
        lemma_parts_more(path, less);
        assert((path + more).drop_last() =~= path + less);
        assert(more.contains(more[more.len() - 1]));
        assert((path + more).last() == more.last());
        let mid = before.drop_last().push(before.last() + less);
        assert(mid.update(mid.len() - 1, mid.last().push(more.last())) =~= before.drop_last().push(
            before.last() + more,
        )) by {
            assert(mid.last().push(more.last()) =~= before.last() + more);
        }
    }
}

/// A path under another is the other, one separator, and the path; and an
/// absolute path is where it is, wherever it is looked at from.
pub proof fn a_path_goes_under_another(base: Seq<u8>, path: Seq<u8>)
    ensures
        path.len() > 0 && path[0] == 0x2f ==> joined(base, path) == path,
        !(path.len() > 0 && path[0] == 0x2f) && base.len() > 0 && base.last() != 0x2f ==> joined(
            base,
            path,
        ) == base + seq![0x2fu8] + path,
        !(path.len() > 0 && path[0] == 0x2f) && base.len() > 0 && base.last() == 0x2f ==> joined(
            base,
            path,
        ) == base + path,
{
    assert(base.push(0x2f) + path =~= base + seq![0x2fu8] + path);
}


/// A path is normalized when it is not empty, no separator begins or ends it,
/// and no two stand side by side.
pub proof fn which_paths_are_normalized(path: Seq<char>)
    ensures
        normalized(path) <==> {
            &&& path.len() > 0
            &&& path[0] != '/'
            &&& path.last() != '/'
            &&& forall|i: int, j: int|
                0 <= i < path.len() && j == i + 1 && j < path.len() ==> !(#[trigger] path[i] == '/'
                    && #[trigger] path[j] == '/')
        },
{
    lemma_filled(path);
    let list = parts(path, '/');
    if path.len() > 0 && path[0] == '/' {
        assert(begins_idly(path, 0));
    }
    if normalized(path) {
        assert(list[list.len() - 1] == list.last());
        assert forall|i: int, j: int|
            0 <= i < path.len() && j == i + 1 && j < path.len() implies !(#[trigger] path[i] == '/'
            && #[trigger] path[j] == '/') by {
            assert(!begins_idly(path, j));
        }
    }
}

/// Whether a separator stands at a place where a name should begin.
spec fn begins_idly(path: Seq<char>, i: int) -> bool {
    path[i] == '/' && (i == 0 || path[i - 1] == '/')
}

/// The last part of a path is empty when a separator ends it, and one before it
/// when a separator stands where a name should begin.
proof fn lemma_filled(path: Seq<char>)
    ensures
        parts(path, '/').len() > 0,
        parts(path, '/').last().len() == 0 <==> path.len() == 0 || path.last() == '/',
        (forall|i: int|
            0 <= i < parts(path, '/').len() - 1 ==> (#[trigger] parts(path, '/')[i]).len() > 0)
            <==> (forall|i: int| 0 <= i < path.len() ==> !#[trigger] begins_idly(path, i)),
    decreases path.len(),
{
    if path.len() > 0 {
        let less = path.drop_last();
        let n = less.len() as int;
        lemma_filled(less);
        let had = parts(less, '/');
        let list = parts(path, '/');
        assert forall|i: int| 0 <= i < n implies begins_idly(path, i) == #[trigger] begins_idly(
            less,
            i,
        ) by {}
        assert forall|i: int| 0 <= i < n implies #[trigger] begins_idly(path, i) == begins_idly(
            less,
            i,
        ) by {}
        if path.last() == '/' {
            assert(begins_idly(path, n) == (n == 0 || less.last() == '/'));
            assert forall|i: int| 0 <= i < had.len() implies #[trigger] list[i] == had[i] by {}
            assert forall|i: int| 0 <= i < had.len() implies list[i] == #[trigger] had[i] by {}
            assert(had[had.len() - 1] == had.last());
        } else {
            assert(!begins_idly(path, n));
            assert forall|i: int| 0 <= i < had.len() - 1 implies #[trigger] list[i] == had[i] by {}
            assert forall|i: int| 0 <= i < had.len() - 1 implies list[i] == #[trigger] had[i] by {}
        }
    }
}

} // verus!
