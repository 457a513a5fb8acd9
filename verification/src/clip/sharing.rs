//! What sharing a clipboard comes to: what a paste on one machine gives of what
//! was copied on another.

use crate::clip::codec;
use crate::clip::event;
use crate::clip::event::{CopyView, EventView, RepView};
use crate::clip::laws;
use crate::clip::mime;
use crate::clip::model;
use crate::clip::model::{ClipError, ClipState, EffectView};
use crate::clip::offer;
use crate::clip::offer::ServeView;
use crate::clip::state;
use crate::clip::state::{Captured, Effect};
use crate::config::Settings;
use crate::files;
use crate::files::uri;
use crate::files::FileName;
use crate::log::store;
use crate::log::EntryId;
use crate::text;
use crate::time::{Span, Time};
use vstd::prelude::*;

verus! {

/// Whether a type names files on the machine that copied it.
pub open spec fn names_files(mime: Seq<char>) -> bool {
    ||| text::same_but_case("text/uri-list"@, mime)
    ||| text::same_but_case("x-special/gnome-copied-files"@, mime)
    ||| text::same_but_case("x-special/nautilus-clipboard"@, mime)
    ||| text::same_but_case("application/x-kde-cutselection"@, mime)
}

/// The names that text goes by.
pub open spec fn names_of_text() -> Seq<Seq<char>> {
    seq!["text/plain;charset=utf-8"@, "text/plain"@, "UTF8_STRING"@, "STRING"@, "TEXT"@]
}

/// Whether a type is that of some text.
pub open spec fn is_text(mime: Seq<char>) -> bool {
    ||| exists|n: int|
        0 <= n < names_of_text().len() && text::same_but_case(#[trigger] names_of_text()[n], mime)
    ||| "text/"@.is_prefix_of(mime)
    ||| mime == "application/json"@
    ||| mime == "application/xml"@
}

/// Whether asking for a type gets a representation: it is that type, or text
/// that is asked for by another of the names of text.
pub open spec fn answers(rep: RepView, mime: Seq<char>) -> bool {
    ||| rep.0 == mime
    ||| is_text(rep.0) && !names_files(rep.0) && names_of_text().contains(mime)
        && !text::same_but_case(mime, rep.0)
}

/// What asking some representations for a type gets: the bytes of the first
/// that answers.
pub open spec fn answer(reps: Seq<RepView>, mime: Seq<char>) -> Option<Seq<u8>>
    decreases reps.len(),
{
    if reps.len() == 0 {
        None
    } else if answer(reps.drop_last(), mime) is Some {
        answer(reps.drop_last(), mime)
    } else if answers(reps.last(), mime) {
        Some(reps.last().1)
    } else {
        None
    }
}

/// What pasting a type off a clipboard gives.
pub open spec fn paste(serves: Seq<ServeView>, mime: Seq<char>) -> Option<Seq<u8>>
    decreases serves.len(),
{
    if serves.len() == 0 {
        None
    } else if paste(serves.drop_last(), mime) is Some {
        paste(serves.drop_last(), mime)
    } else if serves.last().0.contains(mime) {
        Some(serves.last().1)
    } else {
        None
    }
}

/// The representations of a selection whose types name no file.
pub open spec fn portable(reps: Seq<RepView>) -> Seq<RepView> {
    reps.filter(|rep: RepView| !names_files(rep.0))
}

proof fn lemma_types(mime: Seq<char>)
    ensures
        mime::local(mime) == names_files(mime),
        mime::textual(mime) == is_text(mime),
        mime::text_names() == names_of_text(),
{
    let names = mime::local_names();
    assert(names[0] == "text/uri-list"@);
    assert(names[1] == "x-special/gnome-copied-files"@);
    assert(names[2] == "x-special/nautilus-clipboard"@);
    assert(names[3] == "application/x-kde-cutselection"@);
    assert(mime::text_names() =~= names_of_text());
}

proof fn lemma_others(names: Seq<Seq<char>>, mime: Seq<char>, m: Seq<char>)
    ensures
        mime::other_names(names, mime).contains(m) == (names.contains(m) && !text::same_but_case(
            m,
            mime,
        )),
    decreases names.len(),
{
    let all = mime::other_names(names, mime);
    if names.len() > 0 {
        let rest = names.drop_last();
        let less = mime::other_names(rest, mime);
        lemma_others(rest, mime, m);
        assert(names =~= rest.push(names.last()));
        lemma_push_contains(rest, names.last(), m);
        if !text::same_but_case(names.last(), mime) {
            lemma_push_contains(less, names.last(), m);
        }
    }
}

proof fn lemma_push_contains<A>(s: Seq<A>, a: A, x: A)
    ensures
        s.push(a).contains(x) == (s.contains(x) || x == a),
{
    let t = s.push(a);
    if s.contains(x) {
        let i = choose|i: int| 0 <= i < s.len() && s[i] == x;
        assert(t[i] == x);
    }
    if t.contains(x) {
        let i = choose|i: int| 0 <= i < t.len() && t[i] == x;
        if i < s.len() {
            assert(s[i] == x);
        }
    }
    assert(t[s.len() as int] == a);
}

proof fn lemma_announced(rep: RepView, m: Seq<char>)
    ensures
        mime::announced(rep.0).contains(m) == answers(rep, m),
{
    lemma_types(rep.0);
    let all = mime::announced(rep.0);
    assert(all[0] == rep.0);
    if mime::local(rep.0) || !mime::textual(rep.0) {
        if all.contains(m) {
            assert(m == rep.0);
        }
    } else {
        let others = mime::other_names(mime::text_names(), rep.0);
        lemma_others(mime::text_names(), rep.0, m);
        if others.contains(m) {
            let i = choose|i: int| 0 <= i < others.len() && others[i] == m;
            assert(all[i + 1] == m);
        }
        if all.contains(m) && m != rep.0 {
            let i = choose|i: int| 0 <= i < all.len() && all[i] == m;
            assert(others[i - 1] == m);
        }
    }
}

proof fn lemma_offered(serves: Seq<ServeView>, m: Seq<char>)
    ensures
        offer::offered(serves, m) == (paste(serves, m) is Some),
    decreases serves.len(),
{
    if serves.len() > 0 {
        let rest = serves.drop_last();
        lemma_offered(rest, m);
        if offer::offered(rest, m) {
            let i = choose|i: int| 0 <= i < rest.len() && (#[trigger] rest[i]).0.contains(m);
            assert(serves[i].0.contains(m));
        }
        if offer::offered(serves, m) {
            let i = choose|i: int| 0 <= i < serves.len() && (#[trigger] serves[i]).0.contains(m);
            if i < rest.len() {
                assert(rest[i].0.contains(m));
            }
        }
        if serves.last().0.contains(m) {
            assert(serves[serves.len() - 1].0.contains(m));
        }
    }
}

proof fn lemma_fresh(serves: Seq<ServeView>, mimes: Seq<Seq<char>>, m: Seq<char>)
    ensures
        offer::fresh(serves, mimes).contains(m) == (mimes.contains(m) && !offer::offered(
            serves,
            m,
        )),
    decreases mimes.len(),
{
    if mimes.len() > 0 {
        let rest = mimes.drop_last();
        lemma_fresh(serves, rest, m);
        assert(mimes =~= rest.push(mimes.last()));
        lemma_push_contains(rest, mimes.last(), m);
        lemma_push_contains(offer::fresh(serves, rest), mimes.last(), m);
    }
}

/// What is put on the clipboard for a selection is the selection: pasting any
/// type gives the bytes of the first representation that answers to it, and
/// nothing when none does.
pub proof fn a_paste_gives_what_was_copied(reps: Seq<RepView>, mime: Seq<char>)
    ensures
        paste(offer::served(reps), mime) == answer(reps, mime),
    decreases reps.len(),
{
    if reps.len() > 0 {
        let rest = reps.drop_last();
        a_paste_gives_what_was_copied(rest, mime);
        let before = offer::served(rest);
        let mimes = offer::fresh(before, mime::announced(reps.last().0));
        lemma_offered(before, mime);
        lemma_fresh(before, mime::announced(reps.last().0), mime);
        lemma_announced(reps.last(), mime);
        if mimes.len() == 0 {
            assert(!mimes.contains(mime));
        } else {
            let after = before.push((mimes, reps.last().1));
            assert(after.drop_last() =~= before);
        }
    }
}

proof fn lemma_kept(reps: Seq<RepView>)
    ensures
        offer::kept(reps) == portable(reps),
    decreases reps.len(),
{
    reveal(Seq::filter);
    if reps.len() > 0 {
        lemma_kept(reps.drop_last());
        lemma_types(reps.last().0);
    }
}

/// Whether some representations are those of a selection that its machine alone
/// can resolve, put so that another can: those that name no file, as they are,
/// or else the paths themselves as text.
pub open spec fn without_files(reps: Seq<RepView>, left: Seq<RepView>) -> bool {
    if portable(reps).len() > 0 {
        left == portable(reps)
    } else {
        &&& left.len() == 1
        &&& left[0].0 == "text/plain;charset=utf-8"@
        &&& if exists|i: int|
            0 <= i < reps.len() && text::same_but_case((#[trigger] reps[i]).0, "text/uri-list"@) {
            exists|i: int|
                #![trigger reps[i]]
                0 <= i < reps.len() && text::same_but_case(reps[i].0, "text/uri-list"@)
                    && left[0].1 == reps[i].1 && forall|j: int|
                    0 <= j < i ==> !text::same_but_case(
                        (#[trigger] reps[j]).0,
                        "text/uri-list"@,
                    )
        } else {
            left[0].1 == reps[0].1
        }
    }
}

proof fn lemma_first_uri_list(reps: Seq<RepView>, n: int)
    requires
        0 <= n < reps.len(),
        text::same_but_case(reps[n].0, "text/uri-list"@),
    ensures
        exists|i: int| event::is_first_under(reps, "text/uri-list"@, i),
    decreases n,
{
    if exists|j: int|
        0 <= j < n && text::same_but_case((#[trigger] reps[j]).0, "text/uri-list"@) {
        let j = choose|j: int|
            0 <= j < n && text::same_but_case((#[trigger] reps[j]).0, "text/uri-list"@);
        lemma_first_uri_list(reps, j);
    } else {
        assert(event::is_first_under(reps, "text/uri-list"@, n));
    }
}

/// Taking the file references out of a selection takes out nothing else: every
/// other representation is left under its own type, with its own bytes and in
/// the same order. One that was nothing but paths is left as the text of them.
pub proof fn only_file_references_are_taken_out(reps: Seq<RepView>)
    requires
        reps.len() > 0,
    ensures
        without_files(reps, offer::stripped_reps(reps)),
        (forall|i: int| 0 <= i < reps.len() ==> !names_files((#[trigger] reps[i]).0))
            ==> offer::stripped_reps(reps) == reps,
{
    lemma_kept(reps);
    if portable(reps).len() == 0 {
        if exists|i: int|
            0 <= i < reps.len() && text::same_but_case((#[trigger] reps[i]).0, "text/uri-list"@) {
            let n = choose|i: int|
                0 <= i < reps.len() && text::same_but_case(
                    (#[trigger] reps[i]).0,
                    "text/uri-list"@,
                );
            lemma_first_uri_list(reps, n);
            let i = choose|i: int| event::is_first_under(reps, "text/uri-list"@, i);
            assert(event::is_first_under(reps, "text/uri-list"@, i));
            assert(offer::stripped_reps(reps)[0].1 == reps[i].1);
        } else if exists|i: int| event::is_first_under(reps, "text/uri-list"@, i) {
            let i = choose|i: int| event::is_first_under(reps, "text/uri-list"@, i);
            assert(text::same_but_case(reps[i].0, "text/uri-list"@));
        }
    }
    if forall|i: int| 0 <= i < reps.len() ==> !names_files((#[trigger] reps[i]).0) {
        lemma_all_portable(reps);
    }
}

proof fn lemma_all_portable(reps: Seq<RepView>)
    requires
        forall|i: int| 0 <= i < reps.len() ==> !names_files((#[trigger] reps[i]).0),
    ensures
        portable(reps) == reps,
    decreases reps.len(),
{
    reveal(Seq::filter);
    if reps.len() > 0 {
        let rest = reps.drop_last();
        assert forall|i: int| 0 <= i < rest.len() implies !names_files((#[trigger] rest[i]).0) by {
            assert(rest[i] == reps[i]);
        }
        lemma_all_portable(rest);
        assert(!names_files(reps[reps.len() - 1].0));
        assert(rest.push(reps.last()) =~= reps);
    } else {
        assert(portable(reps) =~= reps);
    }
}

/// Whether an entry is about to be put on the clipboard: it is the selection,
/// it says a copy, and it is not on the clipboard yet.
pub open spec fn about_to_land(state: ClipState, id: EntryId, copy: CopyView, now: Time) -> bool {
    &&& state.pause.apply.running(now)
    &&& state.selected() == Some(id)
    &&& state.copied(id) == Some(copy)
    &&& state.applied != Some(id)
    &&& copy.reps.len() > 0
}

/// What is copied on this machine is put on its clipboard as it was copied.
pub proof fn our_copy_lands_as_it_is(
    state: ClipState,
    id: EntryId,
    copy: CopyView,
    now: Time,
    mime: Seq<char>,
)
    requires
        about_to_land(state, id, copy, now),
        id.origin == state.log.origin,
        !state.ready.contains_key(id),
    ensures
        state.reconcile(now).1.len() == 1,
        state.reconcile(now).1[0] matches EffectView::Apply(serves) && paste(serves, mime)
            == answer(copy.reps, mime),
        state.reconcile(now).0 == (ClipState { applied: Some(id), ..state }),
{
    a_paste_gives_what_was_copied(copy.reps, mime);
}

/// What another machine copied is put on this one's clipboard as it was copied
/// there, in every type that names no file of that machine; all of it, when none
/// does. Its files are asked for, unless it has none or is a secret.
pub proof fn a_copy_made_elsewhere_lands_here(
    state: ClipState,
    id: EntryId,
    copy: CopyView,
    now: Time,
    mime: Seq<char>,
)
    requires
        about_to_land(state, id, copy, now),
        id.origin != state.log.origin,
        !state.ready.contains_key(id),
    ensures
        ({
            let effects = state.reconcile(now).1;
            &&& effects.last() matches EffectView::Apply(serves) && {
                &&& portable(copy.reps).len() > 0 ==> paste(serves, mime) == answer(
                    portable(copy.reps),
                    mime,
                )
                &&& (forall|i: int|
                    0 <= i < copy.reps.len() ==> !names_files((#[trigger] copy.reps[i]).0))
                    ==> paste(serves, mime) == answer(copy.reps, mime)
                &&& portable(copy.reps).len() == 0 ==> exists|left: Seq<RepView>|
                    without_files(copy.reps, left) && paste(serves, mime) == #[trigger] answer(
                        left,
                        mime,
                    )
            }
            &&& effects.len() == (if copy.files.len() > 0 && !copy.secret {
                2int
            } else {
                1int
            })
            &&& copy.files.len() > 0 && !copy.secret ==> effects[0] == EffectView::Fetch(id)
        }),
        state.reconcile(now).0 == (ClipState { applied: Some(id), ..state }),
{
    only_file_references_are_taken_out(copy.reps);
    let left = offer::stripped_reps(copy.reps);
    a_paste_gives_what_was_copied(left, mime);
}

/// Where a file lies under a tree.
pub open spec fn place(tree: Seq<u8>, file: FileName) -> Seq<u8> {
    (if tree.last() == 0x2f {
        tree
    } else {
        tree.push(0x2f)
    }) + vstd::utf8::encode_utf8(file.path)
}

/// Whether the files of an entry can be laid out under a tree: the tree is
/// somewhere, and the files have names that go on from there.
pub open spec fn can_lie_under(tree: Seq<u8>, files: Seq<FileName>) -> bool {
    &&& tree.len() > 0
    &&& tree[0] == 0x2f
    &&& forall|i: int|
        0 <= i < files.len() ==> {
            let name = vstd::utf8::encode_utf8((#[trigger] files[i]).path);
            name.len() > 0 && name[0] != 0x2f
        }
}

proof fn lemma_placed(tree: Seq<u8>, files: Seq<FileName>)
    requires
        can_lie_under(tree, files),
    ensures
        files::all_laid_out(tree, files) == Seq::new(
            files.len(),
            |i: int| place(tree, files[i]),
        ),
        forall|i: int|
            0 <= i < files.len() ==> (#[trigger] files::all_laid_out(tree, files)[i]).len() > 0
                && files::all_laid_out(tree, files)[i][0] == 0x2f,
{
    let all = files::all_laid_out(tree, files);
    assert forall|i: int| 0 <= i < files.len() implies (#[trigger] all[i]).len() > 0 && all[i][0]
        == 0x2f && all[i] == place(tree, files[i]) by {
        let name = vstd::utf8::encode_utf8(files[i].path);
        assert(name.len() > 0 && name[0] != 0x2f);
    }
    assert(all =~= Seq::new(files.len(), |i: int| place(tree, files[i])));
}

proof fn lemma_type_names()
    ensures
        "text/plain;charset=utf-8"@ != "text/uri-list"@,
        "text/plain;charset=utf-8"@ != "x-special/gnome-copied-files"@,
        "text/uri-list"@ != "x-special/gnome-copied-files"@,
        !names_of_text().contains("text/uri-list"@),
        !names_of_text().contains("x-special/gnome-copied-files"@),
        names_files("text/uri-list"@),
        names_files("x-special/gnome-copied-files"@),
        !names_files("text/plain;charset=utf-8"@),
        is_text("text/plain;charset=utf-8"@),
{
    reveal_strlit("text/plain;charset=utf-8");
    reveal_strlit("text/plain");
    reveal_strlit("UTF8_STRING");
    reveal_strlit("STRING");
    reveal_strlit("TEXT");
    reveal_strlit("text/uri-list");
    reveal_strlit("x-special/gnome-copied-files");
    reveal_strlit("x-special/nautilus-clipboard");
    reveal_strlit("application/x-kde-cutselection");
    assert("text/plain;charset=utf-8"@.len() == 24);
    assert("text/uri-list"@.len() == 13);
    assert("x-special/gnome-copied-files"@.len() == 28);
    assert("x-special/nautilus-clipboard"@.len() == 28);
    assert("application/x-kde-cutselection"@.len() == 30);
    assert(names_of_text()[0] == "text/plain;charset=utf-8"@);
    assert(text::same_but_case(names_of_text()[0], "text/plain;charset=utf-8"@));
}

/// The representations that neither name files nor are text.
pub open spec fn neither(reps: Seq<RepView>) -> Seq<RepView> {
    reps.filter(|rep: RepView| !names_files(rep.0) && !is_text(rep.0))
}

proof fn lemma_beside(reps: Seq<RepView>)
    ensures
        offer::beside(reps) == neither(reps),
    decreases reps.len(),
{
    reveal(Seq::filter);
    if reps.len() > 0 {
        lemma_beside(reps.drop_last());
        lemma_types(reps.last().0);
    }
}

proof fn lemma_answer_starts(reps: Seq<RepView>, n: int, mime: Seq<char>)
    requires
        0 <= n <= reps.len(),
    ensures
        answer(reps.take(n), mime) is Some ==> answer(reps, mime) == answer(reps.take(n), mime),
    decreases reps.len(),
{
    if n < reps.len() {
        lemma_answer_starts(reps.drop_last(), n, mime);
        assert(reps.drop_last().take(n) =~= reps.take(n));
    } else {
        assert(reps.take(n) =~= reps);
    }
}

proof fn lemma_answer_goes_on(a: Seq<RepView>, b: Seq<RepView>, mime: Seq<char>)
    requires
        answer(a, mime) is None,
    ensures
        answer(a + b, mime) == answer(b, mime),
    decreases b.len(),
{
    if b.len() == 0 {
        assert(a + b =~= a);
    } else {
        lemma_answer_goes_on(a, b.drop_last(), mime);
        assert((a + b).drop_last() =~= a + b.drop_last());
    }
}

/// Once the files of an entry are laid out under a tree, the clipboard offers
/// them there: both lists that file managers read name the place of every file
/// of the manifest under the tree, each once and in order, and so does the text,
/// one place to a line. What was copied beside them, and is no text, is still
/// offered.
pub proof fn files_that_are_here_are_offered_here(
    state: ClipState,
    id: EntryId,
    copy: CopyView,
    now: Time,
    mime: Seq<char>,
)
    requires
        about_to_land(state, id, copy, now),
        state.ready.contains_key(id),
        can_lie_under(state.ready[id], copy.files),
    ensures
        ({
            let places = Seq::new(copy.files.len(), |i: int| place(state.ready[id], copy.files[i]));
            &&& state.reconcile(now).1.len() == 1
            &&& state.reconcile(now).1[0] matches EffectView::Apply(serves) && {
                &&& paste(serves, "text/uri-list"@) matches Some(list) && uri::listed_paths(list)
                    == places
                &&& paste(serves, "x-special/gnome-copied-files"@) matches Some(list)
                    && uri::listed_paths(list) == places
                &&& paste(serves, "text/plain;charset=utf-8"@) == Some(uri::text_of_paths(places))
                &&& !names_of_text().contains(mime) && !names_files(mime) ==> paste(serves, mime)
                    == answer(neither(copy.reps), mime)
            }
        }),
{
    let tree = state.ready[id];
    let places = files::all_laid_out(tree, copy.files);
    lemma_placed(tree, copy.files);
    lemma_type_names();
    lemma_beside(copy.reps);
    let own = event::files_selection(places);
    let all = own + offer::beside(copy.reps);
    let list = "text/uri-list"@;
    let gnome = "x-special/gnome-copied-files"@;
    let plain = "text/plain;charset=utf-8"@;
    assert(all == offer::rehomed_reps(copy, tree));
    a_paste_gives_what_was_copied(all, list);
    a_paste_gives_what_was_copied(all, gnome);
    a_paste_gives_what_was_copied(all, plain);
    a_paste_gives_what_was_copied(all, mime);
    uri::a_uri_list_names_the_paths_it_was_made_of(places);
    uri::a_gnome_list_names_the_paths_it_was_made_of(places);
    let one = all.take(1);
    let two = all.take(2);
    let three = all.take(3);
    assert(three =~= own);
    assert(one.drop_last() =~= Seq::<RepView>::empty());
    assert(two.drop_last() =~= one);
    assert(three.drop_last() =~= two);
    assert(one.last() == own[0] && two.last() == own[1] && three.last() == own[2]);
    let none = Seq::<RepView>::empty();
    assert(answer(none, list) is None && answer(none, gnome) is None);
    assert(answer(none, plain) is None && answer(none, mime) is None);
    assert(own[1].0 == list && own[2].0 == gnome && own[0].0 == plain);
    assert(answer(one, list) is None);
    assert(answer(two, list) == Some(own[1].1));
    assert(answer(one, gnome) is None);
    assert(answer(two, gnome) is None);
    assert(answer(three, gnome) == Some(own[2].1));
    assert(answer(one, plain) == Some(own[0].1));
    lemma_answer_starts(all, 2, list);
    lemma_answer_starts(all, 3, gnome);
    lemma_answer_starts(all, 1, plain);
    if !names_of_text().contains(mime) && !names_files(mime) {
        assert(names_of_text()[0] == plain);
        assert(names_of_text().contains(plain));
        assert(answer(one, mime) is None);
        assert(answer(two, mime) is None);
        assert(answer(own, mime) is None);
        lemma_answer_goes_on(own, offer::beside(copy.reps), mime);
    }
}


/// How many bytes some representations have together.
pub open spec fn total_bytes(reps: Seq<RepView>) -> nat
    decreases reps.len(),
{
    if reps.len() == 0 {
        0
    } else {
        total_bytes(reps.drop_last()) + reps.last().1.len()
    }
}

/// Whether the first `n` representations are as many as a cap has room for.
pub open spec fn most_that_fit(reps: Seq<RepView>, cap: usize, n: int) -> bool {
    &&& 1 <= n <= reps.len()
    &&& total_bytes(reps.take(n)) <= cap
    &&& n == reps.len() || total_bytes(reps.take(n + 1)) > cap
}

/// The whole seconds of a length of time, as a lifetime is counted.
pub open spec fn seconds(span: Span) -> u32 {
    if span.nanos / 1_000_000_000 <= u32::MAX {
        (span.nanos / 1_000_000_000) as u32
    } else {
        u32::MAX
    }
}

/// The lifetime of a copy: the one that was asked for, or the configured one
/// when it is a secret and none was.
pub open spec fn lifetime(secret: bool, ttl: Option<Span>, default: Span) -> Option<u32> {
    match ttl {
        Some(span) => Some(seconds(span)),
        None => if secret {
            Some(seconds(default))
        } else {
            None
        },
    }
}

pub proof fn lemma_total(reps: Seq<RepView>)
    ensures
        event::reps_weight(reps) == total_bytes(reps),
    decreases reps.len(),
{
    if reps.len() > 0 {
        lemma_total(reps.drop_last());
    }
}

pub proof fn lemma_fitted(reps: Seq<RepView>, cap: usize)
    requires
        reps.len() > 0,
        total_bytes(reps) <= usize::MAX,
    ensures
        match model::fitted(reps, cap) {
            Some(fitting) => exists|n: int|
                #[trigger] most_that_fit(reps, cap, n) && fitting == reps.take(n),
            None => total_bytes(reps.take(1)) > cap,
        },
    decreases reps.len(),
{
    lemma_total(reps);
    assert(reps.take(reps.len() as int) =~= reps);
    if event::counted_weight(reps) <= cap {
        assert(most_that_fit(reps, cap, reps.len() as int));
    } else if reps.len() > 1 {
        let rest = reps.drop_last();
        lemma_fitted(rest, cap);
        assert(rest.take(1) =~= reps.take(1));
        if model::fitted(rest, cap) is Some {
            let n = choose|n: int|
                #[trigger] most_that_fit(rest, cap, n) && model::fitted(rest, cap)->0 == rest.take(
                    n,
                );
            assert(rest.take(n) =~= reps.take(n));
            if n < rest.len() {
                assert(rest.take(n + 1) =~= reps.take(n + 1));
            }
            assert(most_that_fit(reps, cap, n));
        }
    }
}

/// An entry that a machine writes says what it was written to, as long as the
/// log keeps it.
pub proof fn lemma_says(state: ClipState, copy: CopyView, durable: bool, now: Time, after: ClipState)
    requires
        state.valid(),
        codec::legible(EventView::Copy(copy)),
        ({
            let (kept, changes) = state.write(EventView::Copy(copy), durable, now);
            after.log == kept.fold(changes, now).0.log
        }),
        after.log.entries.contains_key(state.log.next_id()),
    ensures
        after.copied(state.log.next_id()) == Some(copy),
{
    let entry = laws::written(state, copy, durable, now);
    let (kept, changes) = state.write(EventView::Copy(copy), durable, now);
    laws::lemma_fold_shrinks(kept, changes, now, entry.id);
    let all = state.log.entries.insert(entry.id, entry);
    store::lemma_survivors(all, state.log.limits);
    laws::lemma_part(kept.log.entries, all, entry.id);
}

/// What an application copies is recorded in every type that was read, when all
/// of them together are within the cap; otherwise in as many of the first as
/// are, and not at all when the first alone is not. A secret is recorded as one,
/// with the configured lifetime, and nothing else is given any.
pub proof fn a_capture_is_recorded_as_far_as_it_fits(
    before: ClipState,
    settings: Settings,
    captured: Captured,
    files: Seq<FileName>,
    now: Time,
    after: ClipState,
    effects: Vec<Effect>,
)
    requires
        before.valid(),
        state::capturing(before, settings, captured, files, now, after, Ok(effects)),
        before.pause.capture.running(now),
        total_bytes(captured.selection@) <= usize::MAX,
        !(before.selected() matches Some(id) && before.items[id].hash == files::blake3_hash(
            captured.selection@[0].1,
        )),
    ensures
        ({
            let reps = captured.selection@;
            let cap = settings.entry_cap();
            let id = before.log.next_id();
            &&& total_bytes(reps.take(1)) > cap ==> after == before && effects@.len() == 0
            &&& total_bytes(reps.take(1)) <= cap && after.log.entries.contains_key(id)
                ==> exists|n: int| #[trigger]
                most_that_fit(reps, cap, n) && after.copied(id) == Some(
                    CopyView {
                        reps: reps.take(n),
                        secret: captured.secret,
                        ttl: lifetime(captured.secret, None, settings.secret_ttl),
                        files,
                    },
                )
            &&& total_bytes(reps) <= cap && after.log.entries.contains_key(id) ==> after.copied(id)
                == Some(
                CopyView {
                    reps,
                    secret: captured.secret,
                    ttl: lifetime(captured.secret, None, settings.secret_ttl),
                    files,
                },
            )
        }),
{
    let reps = captured.selection@;
    let cap = settings.entry_cap();
    let id = before.log.next_id();
    lemma_fitted(reps, cap);
    assert(state::effect_views(effects@).len() == effects@.len());
    match model::fitted(reps, cap) {
        None => {},
        Some(fitting) => {
            let n = choose|n: int| #[trigger] most_that_fit(reps, cap, n) && fitting == reps.take(n);
            lemma_first_fits(reps, n);
            assert(fitting[0] == reps[0]);
            let copy = CopyView {
                reps: fitting,
                secret: captured.secret,
                ttl: lifetime(captured.secret, None, settings.secret_ttl),
                files,
            };
            assert(model::copy_event(fitting, files, captured.secret, None, settings.secret_ttl)
                == EventView::Copy(copy));
            if after.log.entries.contains_key(id) {
                lemma_says(before, copy, !captured.secret, now, after);
            }
            if total_bytes(reps) <= cap {
                if n < reps.len() {
                    lemma_first_more(reps, n + 1);
                }
                assert(reps.take(reps.len() as int) =~= reps);
            }
        },
    }
}

proof fn lemma_first_more(reps: Seq<RepView>, n: int)
    requires
        0 <= n <= reps.len(),
    ensures
        total_bytes(reps.take(n)) <= total_bytes(reps),
    decreases reps.len(),
{
    if n < reps.len() {
        lemma_first_more(reps.drop_last(), n);
        assert(reps.drop_last().take(n) =~= reps.take(n));
    } else {
        assert(reps.take(n) =~= reps);
    }
}

pub proof fn lemma_first_fits(reps: Seq<RepView>, n: int)
    requires
        1 <= n <= reps.len(),
    ensures
        total_bytes(reps.take(1)) <= total_bytes(reps.take(n)),
{
    lemma_first_more(reps.take(n), 1);
    assert(reps.take(n).take(1) =~= reps.take(1));
}

/// What is captured while sharing is paused, or is what the mesh has selected
/// already, is not recorded: the log stays as it is and nothing is asked for.
pub proof fn a_capture_is_not_recorded_in_vain(
    before: ClipState,
    settings: Settings,
    captured: Captured,
    files: Seq<FileName>,
    now: Time,
    after: ClipState,
    effects: Vec<Effect>,
)
    requires
        state::capturing(before, settings, captured, files, now, after, Ok(effects)),
        captured.selection@.len() > 0,
        total_bytes(captured.selection@) <= usize::MAX,
        !before.pause.capture.running(now) || (before.selected() matches Some(id)
            && before.items[id].hash == files::blake3_hash(captured.selection@[0].1)),
    ensures
        effects@.len() == 0,
        after.log == before.log,
        after.items == before.items,
        !before.pause.capture.running(now) ==> after == before,
{
    let reps = captured.selection@;
    let cap = settings.entry_cap();
    lemma_fitted(reps, cap);
    assert(state::effect_views(effects@).len() == effects@.len());
    if let Some(fitting) = model::fitted(reps, cap) {
        let n = choose|n: int| #[trigger] most_that_fit(reps, cap, n) && fitting == reps.take(n);
        assert(fitting[0] == reps[0]);
    }
}

/// What is copied from the command line is the entry that is written: every
/// representation, the files, whether it is a secret, and the lifetime that was
/// asked for. It is refused only when its files are, when it has no bytes or
/// more than the cap allows, or when it does not fit the log.
pub proof fn a_copy_is_written_as_it_was_made(
    before: ClipState,
    settings: Settings,
    reps: Seq<RepView>,
    files: Seq<FileName>,
    secret: bool,
    ttl: Option<Span>,
    now: Time,
    after: ClipState,
    result: Result<(EntryId, Vec<Effect>), ClipError>,
)
    requires
        before.valid(),
        state::copying(before, settings, reps, files, secret, ttl, now, after, result),
        total_bytes(reps) <= usize::MAX,
    ensures
        ({
            let copy = CopyView {
                reps,
                secret,
                ttl: lifetime(secret, ttl, settings.secret_ttl),
                files,
            };
            match result {
                Ok((id, _)) => {
                    &&& id.origin == before.log.origin
                    &&& id.seq == before.log.next_seq
                    &&& 0 < total_bytes(reps) <= settings.entry_cap()
                    &&& after.log.entries.contains_key(id) ==> after.copied(id) == Some(copy)
                },
                Err(_) => {
                    &&& after == before
                    &&& files::manifest::refusal(files) is Some || total_bytes(reps) == 0
                        || total_bytes(reps) > settings.entry_cap() || codec::encoding(
                        EventView::Copy(copy),
                    ).len() > before.log.limits.payload
                },
            }
        }),
{
    lemma_total(reps);
    let copy = CopyView { reps, secret, ttl: lifetime(secret, ttl, settings.secret_ttl), files };
    assert(model::copy_event(reps, files, secret, ttl, settings.secret_ttl) == EventView::Copy(
        copy,
    ));
    if let Ok((id, _)) = result {
        if after.log.entries.contains_key(id) {
            lemma_says(before, copy, !secret, now, after);
        }
    }
}

/// Picking an entry copies it anew: one that was copied here exactly as it was,
/// and one that was copied elsewhere in every type that names no file there, in
/// the same order and with the same bytes. It is as secret as it was, and lives
/// as long again. The files go with it when they are here, and are laid out
/// anew.
pub proof fn a_picked_entry_is_copied_anew(
    before: ClipState,
    settings: Settings,
    id: EntryId,
    copy: CopyView,
    now: Time,
    after: ClipState,
    picked: EntryId,
    effects: Vec<Effect>,
)
    requires
        before.valid(),
        before.copied(id) == Some(copy),
        copy.reps.len() > 0,
        state::picking(before, settings, id, now, after, Ok((picked, effects))),
    ensures
        picked.origin == before.log.origin,
        picked.seq == before.log.next_seq,
        after.log.entries.contains_key(picked) ==> (after.copied(picked) matches Some(anew) && {
            &&& id.origin == before.log.origin ==> anew.reps == copy.reps
            &&& id.origin != before.log.origin ==> without_files(copy.reps, anew.reps)
            &&& (forall|i: int|
                0 <= i < copy.reps.len() ==> !names_files((#[trigger] copy.reps[i]).0))
                ==> anew.reps == copy.reps
            &&& anew.secret == copy.secret
            &&& copy.ttl is Some ==> anew.ttl == copy.ttl
            &&& copy.ttl is None ==> anew.ttl == lifetime(copy.secret, None, settings.secret_ttl)
            &&& anew.files == (if id.origin == before.log.origin || before.ready.contains_key(id) {
                copy.files
            } else {
                Seq::empty()
            })
        }),
        id.origin != before.log.origin && before.ready.contains_key(id)
            ==> state::effect_views(effects@).last() == EffectView::Fetch(picked),
{
    only_file_references_are_taken_out(copy.reps);
    let event = before.pick_event(copy, id, settings.secret_ttl);
    if let EventView::Copy(anew) = event {
        if after.log.entries.contains_key(picked) {
            lemma_says(before, anew, !copy.secret, now, after);
        }
    }
}


/// Only one number of representations is the most that fits.
pub proof fn lemma_one_that_fits(reps: Seq<RepView>, cap: usize, n: int, m: int)
    requires
        most_that_fit(reps, cap, n),
        most_that_fit(reps, cap, m),
    ensures
        n == m,
{
    if n < m {
        lemma_first_more(reps.take(m), n + 1);
        assert(reps.take(m).take(n + 1) =~= reps.take(n + 1));
    }
    if m < n {
        lemma_first_more(reps.take(n), m + 1);
        assert(reps.take(n).take(m + 1) =~= reps.take(m + 1));
    }
}


/// An entry that a machine writes may touch the disk if it was written so.
pub proof fn lemma_written_durable(
    state: ClipState,
    copy: CopyView,
    durable: bool,
    now: Time,
    after: ClipState,
)
    requires
        state.valid(),
        ({
            let (kept, changes) = state.write(EventView::Copy(copy), durable, now);
            after.log == kept.fold(changes, now).0.log
        }),
        after.log.entries.contains_key(state.log.next_id()),
    ensures
        after.log.entries[state.log.next_id()].durable == durable,
{
    let entry = laws::written(state, copy, durable, now);
    let (kept, changes) = state.write(EventView::Copy(copy), durable, now);
    laws::lemma_fold_shrinks(kept, changes, now, entry.id);
    let all = state.log.entries.insert(entry.id, entry);
    store::lemma_survivors(all, state.log.limits);
    laws::lemma_part(kept.log.entries, all, entry.id);
}


} // verus!
