//! What a selection of paths names: the files to take into the spool, each
//! under the name it keeps on the other machine.
//!
//! Directories are walked. Symlinks and everything that is not a plain file
//! are skipped: what a paste elsewhere can do is write bytes, and a link to a
//! path that machine does not have is the very thing being fixed here.
//!
//! A selection over the caps is refused rather than truncated: half a folder
//! is not the folder, and a paste that quietly dropped files would be worse
//! than one that did not happen.

use crate::files;
use crate::files::manifest;
use crate::text;
use vstd::prelude::*;

verus! {

/// How many files one selection may name. A folder is walked, and a deep one
/// is a manifest the log cannot carry.
pub const MAX_FILES: usize = 4096;

/// A file to take into the spool: where it is now, the name it keeps, and what
/// it weighed when the selection was walked.
#[derive(Debug)]
pub struct Source {
    pub from: Vec<u8>,
    pub path: String,
    pub size: u64,
}

/// A file to take into the spool, for contracts.
pub struct SourceView {
    pub from: Seq<u8>,
    pub path: Seq<char>,
    pub size: u64,
}

impl View for Source {
    type V = SourceView;

    open spec fn view(&self) -> SourceView {
        SourceView { from: self.from@, path: self.path@, size: self.size }
    }
}

/// Some files to take into the spool, for contracts.
pub open spec fn source_views(sources: Seq<Source>) -> Seq<SourceView> {
    sources.map_values(|source: Source| source@)
}

impl Clone for Source {
    fn clone(&self) -> (other: Self)
        ensures
            other@ == self@,
    {
        Source {
            from: vstd::slice::slice_to_vec(self.from.as_slice()),
            path: self.path.clone(),
            size: self.size,
        }
    }
}

/// Whether a path ends in something that adds nothing to it: a separator, or a
/// `.` behind one.
pub open spec fn ends_idly(path: Seq<u8>) -> bool {
    ||| path.len() > 0 && path.last() == 0x2f
    ||| path.len() > 1 && path.last() == 0x2e && path[path.len() - 2] == 0x2f
}

/// A path without the separators and the `.` parts that end it.
pub open spec fn unended(path: Seq<u8>) -> Seq<u8>
    decreases path.len(),
{
    if ends_idly(path) {
        unended(path.drop_last())
    } else {
        path
    }
}

/// A path up to and with its last separator.
pub open spec fn up_to_last(path: Seq<u8>) -> Seq<u8>
    decreases path.len(),
{
    if path.len() == 0 || path.last() == 0x2f {
        path
    } else {
        up_to_last(path.drop_last())
    }
}

/// The name a file keeps on the other machine, when that is text: its path as
/// it goes on from the directory that the root is in. Separators and `.` parts
/// that end the root do not count.
pub open spec fn name_kept(root: Seq<u8>, path: Seq<u8>) -> Option<Seq<char>> {
    let base = up_to_last(unended(root));
    let name = path.skip(base.len() as int);
    if base.is_prefix_of(path) && vstd::utf8::valid_utf8(name) {
        Some(vstd::utf8::decode_utf8(name))
    } else {
        None
    }
}

/// The name a file found under a root keeps on the other machine: the file
/// itself, or the folder everything under it sits in, comes first. Nothing when
/// that name is no text.
pub fn kept_name(root: &[u8], path: &[u8]) -> (name: Option<String>)
    ensures
        match name {
            Some(name) => name_kept(root@, path@) == Some(name@),
            None => name_kept(root@, path@) is None,
        },
{
    let mut end: usize = root.len();
    assert(root@.take(end as int) =~= root@);
    while end > 0 && (root[end - 1] == 0x2f || (end > 1 && root[end - 1] == 0x2e && root[end - 2]
        == 0x2f))
        invariant
            end <= root.len(),
            unended(root@.take(end as int)) == unended(root@),
        decreases end,
    {
        assert(root@.take(end as int).drop_last() =~= root@.take(end - 1));
        end -= 1;
    }
    let ghost bare = root@.take(end as int);
    assert(unended(root@) == bare);
    let mut cut: usize = end;
    assert(bare.take(cut as int) =~= bare);
    while cut > 0 && root[cut - 1] != 0x2f
        invariant
            cut <= end <= root.len(),
            bare == root@.take(end as int),
            up_to_last(bare.take(cut as int)) == up_to_last(bare),
        decreases cut,
    {
        assert(bare.take(cut as int).drop_last() =~= bare.take(cut - 1));
        cut -= 1;
    }
    let ghost base = bare.take(cut as int);
    assert(up_to_last(bare) == base);
    if path.len() < cut {
        return None;
    }
    let mut i: usize = 0;
    while i < cut
        invariant
            i <= cut <= end <= root.len(),
            cut <= path.len(),
            base == root@.take(end as int).take(cut as int),
            base == up_to_last(unended(root@)),
            forall|j: int| 0 <= j < i ==> #[trigger] base[j] == path@[j],
        decreases cut - i,
    {
        if root[i] != path[i] {
            assert(base[i as int] != path@.subrange(0, cut as int)[i as int]);
            return None;
        }
        i += 1;
    }
    assert(base =~= path@.subrange(0, cut as int));
    let name = vstd::slice::slice_subrange(path, cut, path.len());
    assert(name@ =~= path@.skip(cut as int));
    match text::as_text(name) {
        Some(name) => Some(name.to_owned()),
        None => None,
    }
}

/// What a walk comes upon.
#[derive(Debug)]
pub enum Found {
    /// A plain file: where it is, the name it keeps when that is text, and
    /// what it weighs.
    File { from: Vec<u8>, path: Option<String>, size: u64 },
    /// A directory, a link, or anything else that is not a plain file.
    Other,
}

/// What a walk comes upon, for contracts.
pub enum FoundView {
    File { from: Seq<u8>, path: Option<Seq<char>>, size: u64 },
    Other,
}

impl View for Found {
    type V = FoundView;

    open spec fn view(&self) -> FoundView {
        match *self {
            Found::File { from, path, size } => FoundView::File {
                from: from@,
                path: match path {
                    Some(path) => Some(path@),
                    None => None,
                },
                size,
            },
            Found::Other => FoundView::Other,
        }
    }
}

/// Everything a walk comes upon, for contracts.
pub open spec fn found_views(found: Seq<Found>) -> Seq<FoundView> {
    found.map_values(|found: Found| found@)
}

/// Why a selection is not shared.
#[derive(Clone, Copy, Debug, PartialEq, Eq, Structural)]
pub enum WalkError {
    /// A file has a name that cannot be shared.
    Unnameable,
    /// The selection is too large to share.
    TooLarge,
    /// The selection has too many files.
    TooManyFiles,
    /// Two of the files would land under the same name, and there is no name
    /// to give the second that the person copying would recognize.
    SameName,
    /// The selection names no file.
    Empty,
    /// The spool has no room for another this many bytes under its budget.
    NoRoom { wanted: u64, budget: u64 },
}

/// What some files weigh together.
pub open spec fn weight(found: Seq<SourceView>) -> nat
    decreases found.len(),
{
    if found.len() == 0 {
        0
    } else {
        weight(found.drop_last()) + found.last().size as nat
    }
}

/// The files found once a walk has come upon one thing more.
pub open spec fn visited(
    found: Seq<SourceView>,
    entry: FoundView,
    max_files: usize,
    max_bytes: u64,
) -> Result<Seq<SourceView>, WalkError> {
    match entry {
        FoundView::Other => Ok(found),
        FoundView::File { from, path: None, size } => Err(WalkError::Unnameable),
        FoundView::File { from, path: Some(path), size } => if weight(found) + size > u64::MAX {
            Err(WalkError::TooLarge)
        } else if found.len() >= max_files {
            Err(WalkError::TooManyFiles)
        } else if weight(found) + size > max_bytes {
            Err(WalkError::TooLarge)
        } else {
            Ok(found.push(SourceView { from, path, size }))
        },
    }
}

/// The files found once a walk has come upon all of some things.
pub open spec fn walked(entries: Seq<FoundView>, max_files: usize, max_bytes: u64) -> Result<
    Seq<SourceView>,
    WalkError,
>
    decreases entries.len(),
{
    if entries.len() == 0 {
        Ok(Seq::empty())
    } else {
        match walked(entries.drop_last(), max_files, max_bytes) {
            Ok(found) => visited(found, entries.last(), max_files, max_bytes),
            Err(error) => Err(error),
        }
    }
}

/// Whether two files have the same name.
pub open spec fn same_name(found: Seq<SourceView>) -> bool {
    exists|i: int, j: int|
        0 <= i < j < found.len() && (#[trigger] found[i]).path == (#[trigger] found[j]).path
}

/// Whether a list is some files in the order of their names.
pub open spec fn arranged(list: Seq<SourceView>, found: Seq<SourceView>) -> bool {
    &&& list.len() == found.len()
    &&& forall|i: int, j: int|
        0 <= i < j < list.len() ==> text::before(
            (#[trigger] list[i]).path,
            (#[trigger] list[j]).path,
        )
    &&& forall|i: int| 0 <= i < list.len() ==> found.contains(#[trigger] list[i])
    &&& forall|i: int| 0 <= i < found.len() ==> list.contains(#[trigger] found[i])
}

/// What walking a selection gives.
pub open spec fn outcome(
    entries: Seq<FoundView>,
    max_files: usize,
    max_bytes: u64,
    result: Result<Vec<Source>, WalkError>,
) -> bool {
    match walked(entries, max_files, max_bytes) {
        Err(error) => result == Err::<Vec<Source>, WalkError>(error),
        Ok(found) => if same_name(found) {
            result == Err::<Vec<Source>, WalkError>(WalkError::SameName)
        } else {
            result matches Ok(list) && arranged(source_views(list@), found)
        },
    }
}

/// A walk under way.
pub struct Walk {
    found: Vec<Source>,
    total: u64,
    max_files: usize,
    max_bytes: u64,
}

impl View for Walk {
    type V = Seq<SourceView>;

    closed spec fn view(&self) -> Seq<SourceView> {
        source_views(self.found@)
    }
}

impl Walk {
    /// Whether the walk has kept count.
    pub closed spec fn wf(&self) -> bool {
        self.total == weight(self@)
    }

    /// How many files the walk takes.
    pub closed spec fn file_cap(&self) -> usize {
        self.max_files
    }

    /// How many bytes the walk takes.
    pub closed spec fn byte_cap(&self) -> u64 {
        self.max_bytes
    }

    /// A walk that has come upon nothing yet.
    pub fn new(max_files: usize, max_bytes: u64) -> (walk: Self)
        ensures
            walk.wf(),
            walk@ == Seq::<SourceView>::empty(),
            walk.file_cap() == max_files,
            walk.byte_cap() == max_bytes,
    {
        let walk = Walk { found: Vec::new(), total: 0, max_files, max_bytes };
        assert(walk@ =~= Seq::<SourceView>::empty());
        walk
    }

    /// Takes the next thing the walk came upon.
    pub fn visit(&mut self, entry: Found) -> (result: Result<(), WalkError>)
        requires
            old(self).wf(),
        ensures
            final(self).wf(),
            final(self).file_cap() == old(self).file_cap(),
            final(self).byte_cap() == old(self).byte_cap(),
            match visited(old(self)@, entry@, old(self).file_cap(), old(self).byte_cap()) {
                Ok(found) => result is Ok && final(self)@ == found,
                Err(error) => result == Err::<(), WalkError>(error) && final(self)@ == old(self)@,
            },
    {
        let (from, path, size) = match entry {
            Found::Other => {
                return Ok(());
            },
            Found::File { from, path: None, size } => {
                return Err(WalkError::Unnameable);
            },
            Found::File { from, path: Some(path), size } => (from, path, size),
        };
        if self.total > u64::MAX - size {
            return Err(WalkError::TooLarge);
        }
        let total: u64 = self.total + size;
        if self.found.len() >= self.max_files {
            return Err(WalkError::TooManyFiles);
        }
        if total > self.max_bytes {
            return Err(WalkError::TooLarge);
        }
        let source = Source { from, path, size };
        let ghost before = self@;
        self.found.push(source);
        self.total = total;
        assert(self@ =~= before.push(source@));
        assert(self@.drop_last() =~= before);
        Ok(())
    }

    /// Ends the walk: the files it came upon, in the order of their names.
    pub fn finish(self) -> (result: Result<Vec<Source>, WalkError>)
        ensures
            if same_name(self@) {
                result == Err::<Vec<Source>, WalkError>(WalkError::SameName)
            } else {
                result matches Ok(list) && arranged(source_views(list@), self@)
            },
    {
        let mut paths: Vec<Vec<char>> = Vec::new();
        let mut i: usize = 0;
        let ghost names = self@.map_values(|source: SourceView| source.path);
        while i < self.found.len()
            invariant
                i <= self.found.len(),
                names == self@.map_values(|source: SourceView| source.path),
                files::views(paths@) == names.take(i as int),
            decreases self.found.len() - i,
        {
            let ghost before = files::views(paths@);
            paths.push(text::chars_of(self.found[i].path.as_str()));
            assert(files::views(paths@) =~= before.push(names[i as int]));
            i += 1;
            assert(files::views(paths@) =~= names.take(i as int));
        }
        assert(files::views(paths@) =~= names);
        assert(files::views(paths@).len() == names.len());
        let order = manifest::sorted(&paths);
        let mut list: Vec<Source> = Vec::new();
        let mut a: usize = 0;
        while a < order.len()
            invariant
                a <= order.len(),
                names == self@.map_values(|source: SourceView| source.path),
                files::views(paths@) == names,
                paths@.len() == self.found@.len(),
                manifest::is_sorted(order@, names, self.found@.len() as int),
                list@.len() == a,
                forall|b: int|
                    0 <= b < a ==> (#[trigger] source_views(list@)[b]) == self@[order@[b] as int],
                forall|b: int|
                    0 < b < a ==> names[order@[b - 1] as int] != names[#[trigger] order@[b] as int],
            decreases order.len() - a,
        {
            let at: usize = order[a];
            if a > 0 {
                let last: usize = order[a - 1];
                assert(files::views(paths@)[at as int] == paths@[at as int]@);
                assert(files::views(paths@)[last as int] == paths@[last as int]@);
                if manifest::same_chars(paths[last].as_slice(), paths[at].as_slice()) {
                    proof {
                        assert(self@[last as int].path == self@[at as int].path);
                        if last < at {
                            assert(same_name(self@));
                        } else {
                            assert(self@[at as int].path == self@[last as int].path);
                            assert(same_name(self@));
                        }
                    }
                    return Err(WalkError::SameName);
                }
            }
            let ghost before = source_views(list@);
            let source = self.found[at].clone();
            list.push(source);
            assert(source_views(list@) =~= before.push(source@));
            a += 1;
        }
        proof {
            lemma_arranged(self@, source_views(list@), order@);
        }
        Ok(list)
    }
}

/// Files listed in the order of their names, no two side by side alike, are
/// those files arranged.
proof fn lemma_arranged(found: Seq<SourceView>, list: Seq<SourceView>, order: Seq<usize>)
    requires
        manifest::is_sorted(
            order,
            found.map_values(|source: SourceView| source.path),
            found.len() as int,
        ),
        list.len() == order.len(),
        forall|b: int| 0 <= b < list.len() ==> (#[trigger] list[b]) == found[order[b] as int],
        forall|b: int|
            0 < b < order.len() ==> found[order[b - 1] as int].path
                != found[#[trigger] order[b] as int].path,
    ensures
        !same_name(found),
        arranged(list, found),
{
    let names = found.map_values(|source: SourceView| source.path);
    assert forall|i: int, j: int| 0 <= i < j < list.len() implies text::before(
        (#[trigger] list[i]).path,
        (#[trigger] list[j]).path,
    ) by {
        lemma_strictly(names, order, i, j);
        assert(names[order[i] as int] == list[i].path);
        assert(names[order[j] as int] == list[j].path);
    }
    assert forall|i: int| 0 <= i < found.len() implies list.contains(#[trigger] found[i]) by {
        assert(manifest::placed(order, i));
        let a = choose|a: int| 0 <= a < order.len() && #[trigger] order[a] == i;
        assert(list[a] == found[i]);
    }
    assert forall|i: int| 0 <= i < list.len() implies found.contains(#[trigger] list[i]) by {
        assert(found[order[i] as int] == list[i]);
    }
    assert forall|i: int, j: int| 0 <= i < j < found.len() implies (#[trigger] found[i]).path != (
    #[trigger] found[j]).path by {
        assert(manifest::placed(order, i));
        assert(manifest::placed(order, j));
        let a = choose|a: int| 0 <= a < order.len() && #[trigger] order[a] == i;
        let b = choose|b: int| 0 <= b < order.len() && #[trigger] order[b] == j;
        assert(names[i] == found[i].path && names[j] == found[j].path);
        if a < b {
            lemma_strictly(names, order, a, b);
        } else {
            lemma_strictly(names, order, b, a);
        }
        text::lemma_before_is_total(names[i], names[j]);
    }
}

/// In an order of names with no two side by side alike, every name comes
/// before those after it.
proof fn lemma_strictly(names: Seq<Seq<char>>, order: Seq<usize>, i: int, j: int)
    requires
        manifest::is_sorted(order, names, names.len() as int),
        forall|b: int|
            0 < b < order.len() ==> names[order[b - 1] as int] != names[#[trigger] order[b] as int],
        0 <= i < j < order.len(),
    ensures
        text::before(names[order[i] as int], names[order[j] as int]),
    decreases j - i,
{
    let last = names[order[j - 1] as int];
    let here = names[order[j] as int];
    assert(!text::before(here, last));
    text::lemma_before_is_total(last, here);
    if i < j - 1 {
        lemma_strictly(names, order, i, j - 1);
        text::lemma_before_is_transitive(names[order[i] as int], last, here);
    }
}

/// Expands what a walk comes upon into the files a selection names, each under
/// the name it keeps on the other machine.
pub fn walk(entries: Vec<Found>, max_files: usize, max_bytes: u64) -> (result: Result<
    Vec<Source>,
    WalkError,
>)
    ensures
        outcome(found_views(entries@), max_files, max_bytes, result),
{
    let ghost all = found_views(entries@);
    let mut walk = Walk::new(max_files, max_bytes);
    assert(all.take(0) =~= Seq::<FoundView>::empty());
    for entry in it: entries
        invariant
            all == found_views(it.seq()),
            walk.wf(),
            walk.file_cap() == max_files,
            walk.byte_cap() == max_bytes,
            walked(all.take(it.index()), max_files, max_bytes) == Ok::<Seq<SourceView>, WalkError>(
                walk@,
            ),
    {
        proof {
            assert(all.take(it.index() + 1).drop_last() =~= all.take(it.index()));
            assert(all.take(it.index() + 1).last() == entry@);
        }
        match walk.visit(entry) {
            Ok(_) => {},
            Err(error) => {
                proof {
                    lemma_refused(all, it.index() + 1, max_files, max_bytes);
                }
                return Err(error);
            },
        }
    }
    assert(all.take(all.len() as int) =~= all);
    walk.finish()
}

/// A selection refused at some point is refused whatever comes after.
proof fn lemma_refused(entries: Seq<FoundView>, n: int, max_files: usize, max_bytes: u64)
    requires
        0 <= n <= entries.len(),
        walked(entries.take(n), max_files, max_bytes) is Err,
    ensures
        walked(entries, max_files, max_bytes) == walked(entries.take(n), max_files, max_bytes),
    decreases entries.len() - n,
{
    if n == entries.len() {
        assert(entries.take(n) =~= entries);
    } else {
        assert(entries.take(n + 1).drop_last() =~= entries.take(n));
        lemma_refused(entries, n + 1, max_files, max_bytes);
    }
}

/// The plain files among what a walk comes upon, in the order it does.
pub open spec fn plain_files(entries: Seq<FoundView>) -> Seq<SourceView>
    decreases entries.len(),
{
    if entries.len() == 0 {
        Seq::empty()
    } else {
        match entries.last() {
            FoundView::File { from, path: Some(path), size } => plain_files(
                entries.drop_last(),
            ).push(SourceView { from, path, size }),
            _ => plain_files(entries.drop_last()),
        }
    }
}

/// How many bytes some files have together.
pub open spec fn bytes_of(found: Seq<SourceView>) -> nat
    decreases found.len(),
{
    if found.len() == 0 {
        0
    } else {
        bytes_of(found.drop_last()) + found.last().size as nat
    }
}

pub proof fn lemma_bytes_of(found: Seq<SourceView>)
    ensures
        weight(found) == bytes_of(found),
    decreases found.len(),
{
    if found.len() > 0 {
        lemma_bytes_of(found.drop_last());
    }
}

/// Whether every plain file has a name that is text.
pub open spec fn all_nameable(entries: Seq<FoundView>) -> bool {
    forall|i: int|
        0 <= i < entries.len() ==> ((#[trigger] entries[i]) matches FoundView::File {
            from,
            path,
            size,
        } ==> path is Some)
}

proof fn lemma_walked(entries: Seq<FoundView>, max_files: usize, max_bytes: u64)
    ensures
        walked(entries, max_files, max_bytes) matches Ok(found) ==> found == plain_files(entries)
            && all_nameable(entries) && found.len() <= max_files && bytes_of(found) <= max_bytes,
        all_nameable(entries) && plain_files(entries).len() <= max_files && bytes_of(
            plain_files(entries),
        ) <= max_bytes ==> walked(entries, max_files, max_bytes) is Ok,
    decreases entries.len(),
{
    if entries.len() > 0 {
        let rest = entries.drop_last();
        lemma_walked(rest, max_files, max_bytes);
        lemma_bytes_of(plain_files(rest));
        let before = plain_files(rest);
        let after = plain_files(entries);
        assert(entries[entries.len() - 1] == entries.last());
        if all_nameable(entries) {
            assert forall|i: int| 0 <= i < rest.len() implies ((#[trigger] rest[i]) matches
                FoundView::File { from, path, size } ==> path is Some) by {
                assert(rest[i] == entries[i]);
            }
        }
        if all_nameable(rest) && !(entries.last() matches FoundView::File {
            from,
            path: None,
            size,
        }) {
            assert forall|i: int| 0 <= i < entries.len() implies ((#[trigger] entries[i]) matches
                FoundView::File { from, path, size } ==> path is Some) by {
                if i < rest.len() {
                    assert(rest[i] == entries[i]);
                }
            }
        }
        if after.len() > before.len() {
            assert(after.drop_last() =~= before);
        }
    }
}

/// Every plain file that a walk comes upon is shared, under the name it keeps,
/// and nothing else is: in the order of their names. The selection is refused
/// exactly when a file of it has no name that is text, when there are more files
/// or more bytes than the caps allow, or when two would land under one name.
pub proof fn every_file_is_shared(
    entries: Seq<FoundView>,
    max_files: usize,
    max_bytes: u64,
    result: Result<Vec<Source>, WalkError>,
)
    requires
        outcome(entries, max_files, max_bytes, result),
    ensures
        ({
            let files = plain_files(entries);
            &&& result is Ok <==> all_nameable(entries) && files.len() <= max_files && bytes_of(
                files,
            ) <= max_bytes && !(exists|i: int, j: int|
                0 <= i < j < files.len() && (#[trigger] files[i]).path == (#[trigger] files[j]).path)
            &&& result matches Ok(list) ==> {
                &&& list@.len() == files.len()
                &&& forall|i: int|
                    0 <= i < files.len() ==> source_views(list@).contains(#[trigger] files[i])
                &&& forall|i: int|
                    0 <= i < list@.len() ==> files.contains(#[trigger] source_views(list@)[i])
                &&& forall|i: int, j: int|
                    0 <= i < j < list@.len() ==> text::before(
                        (#[trigger] source_views(list@)[i]).path,
                        (#[trigger] source_views(list@)[j]).path,
                    )
            }
        }),
{
    lemma_walked(entries, max_files, max_bytes);
}

/// A plain file keeps the name it has from the directory of the root on: what
/// comes below the root follows the name of the root. How the root is ended
/// makes no difference.
pub proof fn a_file_keeps_its_name_from_the_root_on(
    base: Seq<u8>,
    name: Seq<u8>,
    more: Seq<u8>,
)
    requires
        base.len() == 0 || base.last() == 0x2f,
        name.len() > 0,
        !name.contains(0x2f),
        name != seq![0x2eu8],
        vstd::utf8::valid_utf8(name + more),
    ensures
        ({
            let root = base + name;
            let path = base + name + more;
            let kept = Some(vstd::utf8::decode_utf8(name + more));
            &&& name_kept(root, path) == kept
            &&& name_kept(root.push(0x2f), path) == kept
            &&& name_kept(root.push(0x2f).push(0x2f), path) == kept
            &&& name_kept(root.push(0x2f).push(0x2e), path) == kept
        }),
{
    let root = base + name;
    let path = base + name + more;
    assert(name.contains(name[name.len() - 1]));
    assert(root.last() == name.last());
    assert(!ends_idly(root)) by {
        if name.len() > 1 {
            assert(name.contains(name[name.len() - 2]));
            assert(root[root.len() - 2] == name[name.len() - 2]);
        } else {
            assert(name =~= seq![name[0]]);
        }
    }
    assert(root.push(0x2f).drop_last() =~= root);
    assert(root.push(0x2f).push(0x2f).drop_last() =~= root.push(0x2f));
    assert(root.push(0x2f).push(0x2e).drop_last() =~= root.push(0x2f));
    assert(unended(root) == root);
    assert(unended(root.push(0x2f)) == root);
    lemma_up_to_last(base, name);
    assert(path.skip(base.len() as int) =~= name + more);
    assert(base =~= path.subrange(0, base.len() as int));
}

proof fn lemma_up_to_last(base: Seq<u8>, name: Seq<u8>)
    requires
        base.len() == 0 || base.last() == 0x2f,
        !name.contains(0x2f),
    ensures
        up_to_last(base + name) == base,
    decreases name.len(),
{
    if name.len() == 0 {
        assert(base + name =~= base);
    } else {
        let less = name.drop_last();
        assert(name.contains(name[name.len() - 1]));
        assert forall|i: int| 0 <= i < less.len() implies less[i] != 0x2f by {
            assert(name.contains(name[i]));
        }
        lemma_up_to_last(base, less);
        assert((base + name).drop_last() =~= base + less);
    }
}


} // verus!
