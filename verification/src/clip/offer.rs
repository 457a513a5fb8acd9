//! What the compositor is handed for a selection.

use crate::clip::event;
use crate::clip::event::{CopyView, Rep, RepView, Selection};
use crate::clip::mime;
use crate::files;
use crate::log;
use crate::log::{payload, Payload};
use crate::text;
use vstd::prelude::*;

verus! {

/// Some bytes, and the types they are offered under.
#[derive(Debug)]
pub struct Serve {
    pub mimes: Vec<String>,
    pub bytes: Payload,
}

/// What is offered: the types, and the bytes.
pub type ServeView = (Seq<Seq<char>>, Seq<u8>);

impl View for Serve {
    type V = ServeView;

    open spec fn view(&self) -> ServeView {
        (mime::owned_texts(self.mimes@), log::payload_bytes(self.bytes))
    }
}

/// What some offers are.
pub open spec fn serve_views(serves: Seq<Serve>) -> Seq<ServeView> {
    serves.map_values(|serve: Serve| serve@)
}

/// Whether a type is offered already.
pub open spec fn offered(serves: Seq<ServeView>, mime: Seq<char>) -> bool {
    exists|i: int| 0 <= i < serves.len() && (#[trigger] serves[i]).0.contains(mime)
}

/// The types among some that are not offered already.
pub open spec fn fresh(serves: Seq<ServeView>, mimes: Seq<Seq<char>>) -> Seq<Seq<char>>
    decreases mimes.len(),
{
    if mimes.len() == 0 {
        mimes
    } else if offered(serves, mimes.last()) {
        fresh(serves, mimes.drop_last())
    } else {
        fresh(serves, mimes.drop_last()).push(mimes.last())
    }
}

/// What the compositor is handed for some representations: each under its own
/// type, text under all of the names for text, and no type twice.
pub open spec fn served(reps: Seq<RepView>) -> Seq<ServeView>
    decreases reps.len(),
{
    if reps.len() == 0 {
        Seq::empty()
    } else {
        let before = served(reps.drop_last());
        let mimes = fresh(before, mime::announced(reps.last().0));
        if mimes.len() == 0 {
            before
        } else {
            before.push((mimes, reps.last().1))
        }
    }
}

/// The representations that carry something, rather than naming it on the
/// machine that copied it.
pub open spec fn kept(reps: Seq<RepView>) -> Seq<RepView>
    decreases reps.len(),
{
    if reps.len() == 0 {
        reps
    } else if mime::local(reps.last().0) {
        kept(reps.drop_last())
    } else {
        kept(reps.drop_last()).push(reps.last())
    }
}

/// The representation that is nothing but paths, or else the first.
pub open spec fn path_bytes(reps: Seq<RepView>) -> Seq<u8> {
    if exists|i: int| event::is_first_under(reps, mime::URI_LIST@, i) {
        reps[choose|i: int| event::is_first_under(reps, mime::URI_LIST@, i)].1
    } else {
        reps[0].1
    }
}

/// The same representations with the file references taken out. A selection
/// that was nothing but paths keeps them as text.
pub open spec fn stripped_reps(reps: Seq<RepView>) -> Seq<RepView> {
    if kept(reps).len() > 0 {
        kept(reps)
    } else {
        seq![(mime::PLAIN_TEXT@, path_bytes(reps))]
    }
}

/// The representations that neither name files nor are text.
pub open spec fn beside(reps: Seq<RepView>) -> Seq<RepView>
    decreases reps.len(),
{
    if reps.len() == 0 {
        reps
    } else if mime::local(reps.last().0) || mime::textual(reps.last().0) {
        beside(reps.drop_last())
    } else {
        beside(reps.drop_last()).push(reps.last())
    }
}

/// The same copy, naming its files where they are laid out here.
pub open spec fn rehomed_reps(copy: CopyView, tree: Seq<u8>) -> Seq<RepView> {
    event::files_selection(files::all_laid_out(tree, copy.files)) + beside(copy.reps)
}

/// Whether a type is offered already.
fn is_offered(serves: &Vec<Serve>, mime: &str) -> (r: bool)
    ensures
        r == offered(serve_views(serves@), mime@),
{
    let ghost all = serve_views(serves@);
    let mut i: usize = 0;
    while i < serves.len()
        invariant
            i <= serves.len(),
            all == serve_views(serves@),
            forall|j: int| 0 <= j < i ==> !(#[trigger] all[j]).0.contains(mime@),
        decreases serves.len() - i,
    {
        assert(all[i as int] == serves@[i as int]@);
        if mime::is_ignored(serves[i].mimes.as_slice(), mime) {
            return true;
        }
        i += 1;
    }
    false
}

/// What the compositor is handed for a selection: every representation under
/// its own type, text under all of the names for text (see
/// [`mime::aliases`]).
pub fn serves(selection: &Selection) -> (list: Vec<Serve>)
    ensures
        serve_views(list@) == served(selection@),
{
    let reps = selection.reps();
    let ghost all = selection@;
    let mut list: Vec<Serve> = Vec::new();
    let mut i: usize = 0;
    assert(serve_views(list@) =~= served(all.take(0)));
    while i < reps.len()
        invariant
            i <= reps.len(),
            all == selection@,
            reps@.map_values(|rep: &Rep| rep@) == all,
            serve_views(list@) == served(all.take(i as int)),
        decreases reps.len() - i,
    {
        let rep = reps[i];
        assert(rep@ == reps@.map_values(|rep: &Rep| rep@)[i as int]);
        assert(all.take(i + 1).drop_last() =~= all.take(i as int));
        let ghost before = serve_views(list@);
        let names = mime::aliases(rep.mime.as_str());
        let ghost wanted = mime::announced(rep.mime@);
        let mut mimes: Vec<String> = Vec::new();
        let mut n: usize = 0;
        assert(mime::owned_texts(mimes@) =~= fresh(before, wanted.take(0)));
        while n < names.len()
            invariant
                n <= names.len(),
                before == serve_views(list@),
                wanted == mime::owned_texts(names@),
                mime::owned_texts(mimes@) == fresh(before, wanted.take(n as int)),
            decreases names.len() - n,
        {
            let name = &names[n];
            assert(name@ == wanted[n as int]);
            assert(wanted.take(n + 1).drop_last() =~= wanted.take(n as int));
            let ghost had = mime::owned_texts(mimes@);
            if !is_offered(&list, name.as_str()) {
                mimes.push(name.clone());
                assert(mime::owned_texts(mimes@) =~= had.push(name@));
            }
            n += 1;
        }
        assert(wanted.take(n as int) =~= wanted);
        assert(mime::owned_texts(mimes@).len() == mimes@.len());
        if mimes.len() > 0 {
            let serve = Serve {
                mimes,
                bytes: payload(vstd::slice::slice_to_vec(rep.bytes.as_slice())),
            };
            list.push(serve);
            assert(serve_views(list@) =~= before.push(serve@));
        }
        i += 1;
    }
    assert(all.take(i as int) =~= all);
    list
}

/// The same selection with its file references taken out: the paths in them
/// are another machine's, and this one has nothing to resolve them against.
///
/// An entry that was nothing but paths keeps them as text, since a path is
/// something a person can read, and `text/uri-list` is the one of those types
/// that is nothing but paths.
pub fn stripped(selection: &Selection) -> (bare: Selection)
    ensures
        bare@ == stripped_reps(selection@),
{
    let reps = selection.reps();
    let ghost all = selection@;
    let mut list: Vec<Rep> = Vec::new();
    let mut i: usize = 0;
    assert(event::rep_views(list@) =~= kept(all.take(0)));
    while i < reps.len()
        invariant
            i <= reps.len(),
            all == selection@,
            reps@.map_values(|rep: &Rep| rep@) == all,
            event::rep_views(list@) == kept(all.take(i as int)),
        decreases reps.len() - i,
    {
        let rep = reps[i];
        assert(rep@ == reps@.map_values(|rep: &Rep| rep@)[i as int]);
        assert(all.take(i + 1).drop_last() =~= all.take(i as int));
        let ghost before = event::rep_views(list@);
        if !mime::is_local(rep.mime.as_str()) {
            list.push(rep.clone());
            assert(event::rep_views(list@) =~= before.push(rep@));
        }
        i += 1;
    }
    assert(all.take(i as int) =~= all);
    assert(event::rep_views(list@).len() == list@.len());
    match Selection::new(list) {
        Some(selection) => selection,
        None => {
            let bytes = match selection.rep(mime::URI_LIST) {
                Some(rep) => {
                    proof {
                        let i = choose|i: int|
                            #![trigger selection@[i]]
                            0 <= i < selection@.len() && selection@[i] == rep@
                                && text::same_but_case(selection@[i].0, mime::URI_LIST@) && forall|
                                j: int,
                            |
                                0 <= j < i ==> !text::same_but_case(
                                    #[trigger] selection@[j].0,
                                    mime::URI_LIST@,
                                );
                        event::lemma_first_under(selection@, mime::URI_LIST@, i);
                    }
                    &rep.bytes
                },
                None => {
                    assert(!exists|i: int|
                        event::is_first_under(selection@, mime::URI_LIST@, i));
                    assert(selection@[0] == selection.primary@);
                    &selection.primary.bytes
                },
            };
            assert(bytes@ == path_bytes(selection@));
            Selection::of(Rep::new(mime::PLAIN_TEXT, vstd::slice::slice_to_vec(bytes.as_slice())))
        },
    }
}

/// The same selection, naming the copies of its files that are on this
/// machine.
///
/// Every representation that names where the files are is rebuilt rather than
/// carried across, since what it has to say is where they are *here*. What the
/// source offered besides is kept.
pub fn rehomed(copy: &event::Copy, tree: &[u8]) -> (selection: Selection)
    ensures
        selection@ == rehomed_reps(copy@, tree@),
{
    let paths = files::places(tree, copy.files.as_slice());
    let mut selection = Selection::of_files(paths.as_slice());
    let ghost base = selection@;
    let reps = copy.selection.reps();
    let ghost all = copy.selection@;
    let mut i: usize = 0;
    assert(selection@ =~= base + beside(all.take(0)));
    while i < reps.len()
        invariant
            i <= reps.len(),
            all == copy.selection@,
            reps@.map_values(|rep: &Rep| rep@) == all,
            selection@ == base + beside(all.take(i as int)),
        decreases reps.len() - i,
    {
        let rep = reps[i];
        assert(rep@ == reps@.map_values(|rep: &Rep| rep@)[i as int]);
        assert(all.take(i + 1).drop_last() =~= all.take(i as int));
        let ghost before = selection@;
        if !mime::is_local(rep.mime.as_str()) && !mime::is_text(rep.mime.as_str()) {
            selection.alternates.push(rep.clone());
            assert(selection@ =~= before.push(rep@));
        }
        i += 1;
        assert(selection@ =~= base + beside(all.take(i as int)));
    }
    assert(all.take(i as int) =~= all);
    selection
}

} // verus!
