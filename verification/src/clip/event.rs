//! What a clipboard log entry says.
//!
//! These are the payloads the log carries around. Everything the clipboard
//! does is one of them, including the destructive operations: emptying the
//! clipboard and dropping history are events like any other, so they reach a
//! machine that was offline when they happened instead of being forgotten the
//! moment the network was down.

use crate::clip::mime;
use crate::files;
use crate::files::{FileName, FileRef};
use crate::log::EntryId;
use crate::text;
use vstd::prelude::*;

verus! {

/// One clipboard event.
///
/// Variants are encoded by position: existing ones keep their position and
/// meaning, new ones are appended. A machine that meets an event it cannot
/// decode ignores it rather than refusing the entry, so a mesh running two
/// versions still works for what both understand.
#[derive(Debug)]
#[non_exhaustive]
pub enum Event {
    /// Something was copied.
    Copy(Copy),
    /// Empty the clipboard everywhere, leaving the history alone.
    Clear,
    /// Drop one entry from every machine.
    Forget(EntryId),
    /// Drop every entry written before this one. What it covers is its own
    /// place in the log, so a machine that has not caught up cannot issue a
    /// purge that covers nothing.
    Purge,
}

/// A copied selection.
#[derive(Debug)]
pub struct Copy {
    pub selection: Selection,
    /// Whether this is a password or the like: never written to disk, never
    /// shown, and given a lifetime by default.
    pub secret: bool,
    /// Seconds after which every machine drops it and, if it is still on the
    /// clipboard, empties the clipboard. `None` lets it live until the history
    /// limits push it out.
    pub ttl: Option<u32>,
    /// The files the selection names, when it names any.
    pub files: Vec<FileRef>,
}

/// A selection, in every type it is carried under.
///
/// An application offers its selection under several types at once and the
/// one that gets pasted is the pasting application's choice. Carrying them
/// all is what lets a machine that did not do the copying answer that choice
/// the way the source machine would have.
///
/// The type that names the entry is a field of its own rather than the head
/// of a list, so it is always there: a selection with no representation is
/// not a selection.
#[derive(Debug)]
pub struct Selection {
    /// What the entry *is*, and what it is named by in the history.
    pub primary: Rep,
    /// The other types the same selection was offered under, best first.
    pub alternates: Vec<Rep>,
}

/// One representation of a selection.
///
/// Mime is the vocabulary of the mesh, on every platform. A backend for a
/// system that names its own types differently translates at its own edge.
#[derive(Debug)]
pub struct Rep {
    pub mime: String,
    pub bytes: Vec<u8>,
}

/// What a representation is: its type and its bytes.
pub type RepView = (Seq<char>, Seq<u8>);

impl View for Rep {
    type V = RepView;

    open spec fn view(&self) -> RepView {
        (self.mime@, self.bytes@)
    }
}

/// What some representations are.
pub open spec fn rep_views(reps: Seq<Rep>) -> Seq<RepView> {
    reps.map_values(|rep: Rep| rep@)
}

/// A selection is its representations, the one that names it first.
impl View for Selection {
    type V = Seq<RepView>;

    open spec fn view(&self) -> Seq<RepView> {
        seq![self.primary@] + rep_views(self.alternates@)
    }
}

/// What was copied.
#[verifier::ext_equal]
pub struct CopyView {
    pub reps: Seq<RepView>,
    pub secret: bool,
    pub ttl: Option<u32>,
    pub files: Seq<FileName>,
}

impl View for Copy {
    type V = CopyView;

    open spec fn view(&self) -> CopyView {
        CopyView {
            reps: self.selection@,
            secret: self.secret,
            ttl: self.ttl,
            files: files::manifest(self.files@),
        }
    }
}

/// What happened.
#[verifier::ext_equal]
pub enum EventView {
    Copy(CopyView),
    Clear,
    Forget(EntryId),
    Purge,
}

impl View for Event {
    type V = EventView;

    open spec fn view(&self) -> EventView {
        match *self {
            Event::Copy(copy) => EventView::Copy(copy@),
            Event::Clear => EventView::Clear,
            Event::Forget(id) => EventView::Forget(id),
            Event::Purge => EventView::Purge,
        }
    }
}

/// What some representations weigh together.
pub open spec fn reps_weight(reps: Seq<RepView>) -> nat
    decreases reps.len(),
{
    if reps.len() == 0 {
        0
    } else {
        reps_weight(reps.drop_last()) + reps.last().1.len()
    }
}

/// What some representations weigh, as far as it can be counted.
pub open spec fn counted_weight(reps: Seq<RepView>) -> usize {
    if reps_weight(reps) <= usize::MAX {
        reps_weight(reps) as usize
    } else {
        usize::MAX
    }
}

impl Rep {
    pub fn new(mime: &str, bytes: Vec<u8>) -> (rep: Self)
        ensures
            rep@ == (mime@, bytes@),
    {
        Rep { mime: mime.to_owned(), bytes }
    }
}

impl Clone for Rep {
    fn clone(&self) -> (other: Self)
        ensures
            other@ == self@,
    {
        Rep { mime: self.mime.clone(), bytes: vstd::slice::slice_to_vec(self.bytes.as_slice()) }
    }
}

impl Clone for Selection {
    fn clone(&self) -> (other: Self)
        ensures
            other@ == self@,
    {
        let mut alternates: Vec<Rep> = Vec::new();
        let mut i: usize = 0;
        let ghost all = rep_views(self.alternates@);
        while i < self.alternates.len()
            invariant
                i <= self.alternates.len(),
                all == rep_views(self.alternates@),
                rep_views(alternates@) == all.take(i as int),
            decreases self.alternates.len() - i,
        {
            let ghost before = rep_views(alternates@);
            alternates.push(self.alternates[i].clone());
            assert(rep_views(alternates@) =~= before.push(self.alternates@[i as int]@));
            i += 1;
            assert(rep_views(alternates@) =~= all.take(i as int));
        }
        assert(rep_views(alternates@) =~= all);
        Selection { primary: self.primary.clone(), alternates }
    }
}

impl Selection {
    /// Takes the representations of a selection, best first, or nothing when
    /// there is none to name it by.
    pub fn new(reps: Vec<Rep>) -> (selection: Option<Self>)
        ensures
            match selection {
                Some(selection) => reps@.len() > 0 && selection@ == rep_views(reps@),
                None => reps@.len() == 0,
            },
    {
        if reps.len() == 0 {
            return None;
        }
        let ghost all = rep_views(reps@);
        let mut alternates = reps;
        let primary = alternates.remove(0);
        let selection = Selection { primary, alternates };
        assert(selection@ =~= all);
        Some(selection)
    }

    /// A selection carried under one type only.
    pub fn of(rep: Rep) -> (selection: Self)
        ensures
            selection@ == seq![rep@],
    {
        let selection = Selection { primary: rep, alternates: Vec::new() };
        assert(selection@ =~= seq![rep@]);
        selection
    }

    /// The type that describes the selection.
    pub fn mime(&self) -> (mime: &str)
        ensures
            mime@ == self@[0].0,
    {
        self.primary.mime.as_str()
    }

    /// Every representation, best first.
    pub fn reps(&self) -> (reps: Vec<&Rep>)
        ensures
            reps@.map_values(|rep: &Rep| rep@) == self@,
    {
        let mut reps: Vec<&Rep> = Vec::new();
        reps.push(&self.primary);
        let mut i: usize = 0;
        assert(reps@.map_values(|rep: &Rep| rep@) =~= self@.take(1));
        while i < self.alternates.len()
            invariant
                i <= self.alternates.len(),
                reps@.map_values(|rep: &Rep| rep@) == self@.take(i + 1),
            decreases self.alternates.len() - i,
        {
            let ghost before = reps@.map_values(|rep: &Rep| rep@);
            reps.push(&self.alternates[i]);
            assert(reps@.map_values(|rep: &Rep| rep@) =~= before.push(self.alternates@[i as int]@));
            i += 1;
            assert(reps@.map_values(|rep: &Rep| rep@) =~= self@.take(i + 1));
        }
        assert(reps@.map_values(|rep: &Rep| rep@) =~= self@);
        reps
    }

    /// The same, giving them up.
    pub fn into_reps(self) -> (reps: Vec<Rep>)
        ensures
            rep_views(reps@) == self@,
    {
        let mut reps = self.alternates;
        reps.insert(0, self.primary);
        assert(rep_views(reps@) =~= self@);
        reps
    }

    /// What the selection weighs: every representation together.
    pub fn size(&self) -> (size: usize)
        ensures
            size == counted_weight(self@),
    {
        let ghost all = self@;
        let mut size: usize = self.primary.bytes.len();
        let mut i: usize = 0;
        proof {
            assert(all.take(1).drop_last() =~= Seq::<RepView>::empty());
            assert(reps_weight(Seq::<RepView>::empty()) == 0);
            assert(reps_weight(all.take(1)) == all[0].1.len());
        }
        while i < self.alternates.len()
            invariant
                i <= self.alternates.len(),
                all == self@,
                size == counted_weight(all.take(i + 1)),
            decreases self.alternates.len() - i,
        {
            assert(all.take(i + 2).drop_last() =~= all.take(i + 1));
            assert(all[i + 1] == self.alternates@[i as int]@);
            size = size.saturating_add(self.alternates[i].bytes.len());
            i += 1;
        }
        assert(all.take(i + 1) =~= all);
        size
    }

    /// The representation offered under `mime`.
    pub fn rep(&self, mime: &str) -> (rep: Option<&Rep>)
        ensures
            match rep {
                Some(rep) => exists|i: int|
                    #![trigger self@[i]]
                    0 <= i < self@.len() && self@[i] == rep@ && text::same_but_case(
                        self@[i].0,
                        mime@,
                    ) && forall|j: int|
                        0 <= j < i ==> !text::same_but_case(#[trigger] self@[j].0, mime@),
                None => forall|j: int|
                    0 <= j < self@.len() ==> !text::same_but_case(#[trigger] self@[j].0, mime@),
            },
    {
        if text::eq_ignore_ascii_case(self.primary.mime.as_str(), mime) {
            assert(self@[0] == self.primary@);
            return Some(&self.primary);
        }
        let mut i: usize = 0;
        while i < self.alternates.len()
            invariant
                i <= self.alternates.len(),
                forall|j: int|
                    0 <= j < i + 1 ==> !text::same_but_case(#[trigger] self@[j].0, mime@),
            decreases self.alternates.len() - i,
        {
            assert(self@[i + 1] == self.alternates@[i as int]@);
            if text::eq_ignore_ascii_case(self.alternates[i].mime.as_str(), mime) {
                return Some(&self.alternates[i]);
            }
            i += 1;
        }
        None
    }

    /// A selection of files as they are on this machine: the paths as text,
    /// then as the types file managers read.
    pub fn of_files(paths: &[Vec<u8>]) -> (selection: Self)
        ensures
            selection@ == files_selection(files::uri::path_views(paths@)),
    {
        let mut alternates: Vec<Rep> = Vec::new();
        alternates.push(Rep::new(mime::URI_LIST, files::uri_list(paths)));
        alternates.push(Rep::new(mime::GNOME_COPIED_FILES, files::gnome_copied_files(paths)));
        let selection = Selection {
            primary: Rep::new(mime::PLAIN_TEXT, files::as_text(paths)),
            alternates,
        };
        assert(selection@ =~= files_selection(files::uri::path_views(paths@)));
        selection
    }

    /// The files on this machine that the selection names, when it names any.
    pub fn file_paths(&self) -> (paths: Vec<Vec<u8>>)
        ensures
            files::uri::path_views(paths@) == named_files(self@),
    {
        match self.rep(mime::URI_LIST) {
            Some(rep) => {
                let paths = files::paths(rep.bytes.as_slice());
                proof {
                    let i = choose|i: int|
                        #![trigger self@[i]]
                        0 <= i < self@.len() && self@[i] == rep@ && text::same_but_case(
                            self@[i].0,
                            mime::URI_LIST@,
                        ) && forall|j: int|
                            0 <= j < i ==> !text::same_but_case(
                                #[trigger] self@[j].0,
                                mime::URI_LIST@,
                            );
                    lemma_first_under(self@, mime::URI_LIST@, i);
                }
                paths
            },
            None => {
                let paths: Vec<Vec<u8>> = Vec::new();
                assert(files::uri::path_views(paths@) =~= Seq::<Seq<u8>>::empty());
                assert(!exists|i: int| is_first_under(self@, mime::URI_LIST@, i));
                paths
            },
        }
    }
}

/// Whether the `i`-th representation is the first under a type.
pub open spec fn is_first_under(reps: Seq<RepView>, mime: Seq<char>, i: int) -> bool {
    &&& 0 <= i < reps.len()
    &&& text::same_but_case(reps[i].0, mime)
    &&& forall|j: int| 0 <= j < i ==> !text::same_but_case(#[trigger] reps[j].0, mime)
}

pub proof fn lemma_first_under(reps: Seq<RepView>, mime: Seq<char>, i: int)
    requires
        is_first_under(reps, mime, i),
    ensures
        i == choose|i: int| is_first_under(reps, mime, i),
        exists|i: int| is_first_under(reps, mime, i),
{
    let j = choose|j: int| is_first_under(reps, mime, j);
    assert(is_first_under(reps, mime, j));
    if i < j {
        assert(!text::same_but_case(reps[i].0, mime));
    } else if j < i {
        assert(!text::same_but_case(reps[j].0, mime));
    }
}

/// The files on this machine that some representations name.
pub open spec fn named_files(reps: Seq<RepView>) -> Seq<Seq<u8>> {
    if exists|i: int| is_first_under(reps, mime::URI_LIST@, i) {
        let i = choose|i: int| is_first_under(reps, mime::URI_LIST@, i);
        files::uri::listed_paths(reps[i].1)
    } else {
        Seq::empty()
    }
}

/// What a selection of files is.
pub open spec fn files_selection(paths: Seq<Seq<u8>>) -> Seq<RepView> {
    seq![
        (mime::PLAIN_TEXT@, files::uri::text_of_paths(paths)),
        (mime::URI_LIST@, files::uri::uri_list_of(paths)),
        (mime::GNOME_COPIED_FILES@, files::uri::gnome_list_of(paths)),
    ]
}

impl Copy {
    /// Whether the selection names files.
    pub fn is_files(&self) -> (r: bool)
        ensures
            r == (self@.files.len() > 0),
    {
        self.files.len() > 0
    }
}

} // verus!
