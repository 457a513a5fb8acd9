//! Mime selection policy.
//!
//! A clipboard selection is offered under several mime types at once, and
//! which one gets pasted is the pasting application's choice: a browser asks
//! for the HTML, a terminal asks for the text. All of them are carried so a
//! machine that did not do the copying can answer that choice too. Picking
//! what to carry, and what to announce, is a policy, kept here so capturing
//! and re-offering agree on it.

use crate::text;
use vstd::prelude::*;

verus! {

/// The type yank adds to every selection it owns.
///
/// It is how the daemon recognizes its own selection: applying an entry makes
/// the compositor announce a new selection, and without a marker that
/// announcement is indistinguishable from the user copying something, which
/// would append a duplicate entry on every machine, forever.
pub const MARKER: &'static str = "application/x-yank";

/// What password managers offer alongside a password so clipboard managers
/// leave it alone. Such an entry is not dropped, since the point is to paste
/// it on another machine, but treated as secret: memory only, and gone after
/// the configured lifetime.
pub const SECRET_HINT: &'static str = "x-kde-passwordManagerHint";

/// The type text is best carried as, and what `yank copy` gives what it reads
/// from the command line.
pub const PLAIN_TEXT: &'static str = "text/plain;charset=utf-8";

/// How many representations of one selection to carry.
///
/// A handful is all an application offers that is worth having; past that it
/// is listing conversions of the same thing.
pub const MAX_REPS: usize = 8;

/// The type a file reference is carried as: `file://` URIs, one per line.
pub const URI_LIST: &'static str = "text/uri-list";

/// What GNOME's file managers paste from: what to do with the files, then the
/// URIs.
pub const GNOME_COPIED_FILES: &'static str = "x-special/gnome-copied-files";

/// Text types, best first. The first is what wl-clipboard and every Wayland
/// toolkit prefer; the rest are the X11 names that older applications still use.
pub open spec fn text_names() -> Seq<Seq<char>> {
    seq![PLAIN_TEXT@, "text/plain"@, "UTF8_STRING"@, "STRING"@, "TEXT"@]
}

/// Types whose contents name something on the machine that copied it: a file,
/// and what a file manager means to do with it.
pub open spec fn local_names() -> Seq<Seq<char>> {
    seq![
        URI_LIST@,
        GNOME_COPIED_FILES@,
        "x-special/nautilus-clipboard"@,
        "application/x-kde-cutselection"@,
    ]
}

/// Selection targets that are protocol chatter rather than content.
pub open spec fn chatter_names() -> Seq<Seq<char>> {
    seq![
        "TARGETS"@,
        "TIMESTAMP"@,
        "MULTIPLE"@,
        "SAVE_TARGETS"@,
        "DELETE"@,
        "INSERT_SELECTION"@,
        "INSERT_PROPERTY"@,
        MARKER@,
        SECRET_HINT@,
    ]
}

/// The characters of some texts.
pub open spec fn texts(list: Seq<&str>) -> Seq<Seq<char>> {
    list.map_values(|t: &str| t@)
}

/// The characters of some owned texts.
pub open spec fn owned_texts(list: Seq<String>) -> Seq<Seq<char>> {
    list.map_values(|t: String| t@)
}

/// Whether a name is among some, the case of English letters aside.
pub open spec fn named(names: Seq<Seq<char>>, mime: Seq<char>) -> bool {
    exists|i: int| 0 <= i < names.len() && text::same_but_case(#[trigger] names[i], mime)
}

/// Whether a type is one of the interchangeable names for plain text.
pub open spec fn text_alias(mime: Seq<char>) -> bool {
    named(text_names(), mime)
}

/// Whether a type carries content at all, as opposed to being selection
/// bookkeeping or one of the bare X11 target names.
pub open spec fn content(mime: Seq<char>) -> bool {
    !chatter_names().contains(mime) && mime.contains('/')
}

/// Whether a payload in this type is text.
pub open spec fn textual(mime: Seq<char>) -> bool {
    ||| text_alias(mime)
    ||| "text/"@.is_prefix_of(mime)
    ||| mime == "application/json"@
    ||| mime == "application/xml"@
}

/// Whether a type names a file rather than carrying one.
pub open spec fn local(mime: Seq<char>) -> bool {
    named(local_names(), mime)
}

/// Whether the `i`-th of some types is the first of which `p` holds.
pub open spec fn is_first(s: Seq<Seq<char>>, p: spec_fn(Seq<char>) -> bool, i: int) -> bool {
    &&& 0 <= i < s.len()
    &&& p(s[i])
    &&& forall|j: int| 0 <= j < i ==> !p(#[trigger] s[j])
}

/// The first of some types of which `p` holds.
pub open spec fn first(s: Seq<Seq<char>>, p: spec_fn(Seq<char>) -> bool) -> Option<Seq<char>> {
    if exists|i: int| is_first(s, p, i) {
        Some(s[choose|i: int| is_first(s, p, i)])
    } else {
        None
    }
}

/// The first offered type that goes by the best of the names for text, from
/// the `from`-th on.
pub open spec fn best_text_from(offered: Seq<Seq<char>>, from: int) -> Option<Seq<char>>
    decreases text_names().len() - from,
{
    if from < 0 || from >= text_names().len() {
        None
    } else {
        let name = text_names()[from];
        match first(offered, |mime: Seq<char>| text::same_but_case(mime, name)) {
            Some(mime) => Some(mime),
            None => best_text_from(offered, from + 1),
        }
    }
}

/// The type that describes a selection: the best text offered, or else the
/// first type offered that carries content.
pub open spec fn primary(offered: Seq<Seq<char>>) -> Option<Seq<char>> {
    match best_text_from(offered, 0) {
        Some(mime) => Some(mime),
        None => first(offered, |mime: Seq<char>| content(mime)),
    }
}

/// Whether an offered type is carried beside those already chosen.
pub open spec fn worth_carrying(
    chosen: Seq<Seq<char>>,
    mime: Seq<char>,
    ignore: Seq<Seq<char>>,
) -> bool {
    &&& chosen.len() < MAX_REPS
    &&& content(mime)
    &&& !text_alias(mime)
    &&& !ignore.contains(mime)
    &&& !named(chosen, mime)
}

/// What is carried beside the type that comes first.
pub open spec fn carried(
    first: Seq<char>,
    offered: Seq<Seq<char>>,
    ignore: Seq<Seq<char>>,
) -> Seq<Seq<char>>
    decreases offered.len(),
{
    if offered.len() == 0 {
        seq![first]
    } else {
        let chosen = carried(first, offered.drop_last(), ignore);
        if worth_carrying(chosen, offered.last(), ignore) {
            chosen.push(offered.last())
        } else {
            chosen
        }
    }
}

/// The types to capture out of what a selection offers, best first.
pub open spec fn selected(offered: Seq<Seq<char>>, ignore: Seq<Seq<char>>) -> Seq<Seq<char>> {
    match primary(offered) {
        Some(mime) => if ignore.contains(mime) {
            Seq::empty()
        } else {
            carried(mime, offered, ignore)
        },
        None => Seq::empty(),
    }
}

/// Some names without those that are a given one, the case of English letters
/// aside.
pub open spec fn other_names(names: Seq<Seq<char>>, mime: Seq<char>) -> Seq<Seq<char>>
    decreases names.len(),
{
    if names.len() == 0 {
        names
    } else if text::same_but_case(names.last(), mime) {
        other_names(names.drop_last(), mime)
    } else {
        other_names(names.drop_last(), mime).push(names.last())
    }
}

/// The types to announce for a payload captured as `mime`.
pub open spec fn announced(mime: Seq<char>) -> Seq<Seq<char>> {
    if local(mime) || !textual(mime) {
        seq![mime]
    } else {
        seq![mime] + other_names(text_names(), mime)
    }
}

/// The names for text, best first.
fn text_types() -> (names: Vec<&'static str>)
    ensures
        texts(names@) == text_names(),
{
    let names = vec![PLAIN_TEXT, "text/plain", "UTF8_STRING", "STRING", "TEXT"];
    assert(texts(names@) =~= text_names());
    names
}

/// The types that name a file.
fn local_types() -> (names: Vec<&'static str>)
    ensures
        texts(names@) == local_names(),
{
    let names = vec![
        URI_LIST,
        GNOME_COPIED_FILES,
        "x-special/nautilus-clipboard",
        "application/x-kde-cutselection",
    ];
    assert(texts(names@) =~= local_names());
    names
}

/// The targets that are chatter.
fn chatter_types() -> (names: Vec<&'static str>)
    ensures
        texts(names@) == chatter_names(),
{
    let names = vec![
        "TARGETS",
        "TIMESTAMP",
        "MULTIPLE",
        "SAVE_TARGETS",
        "DELETE",
        "INSERT_SELECTION",
        "INSERT_PROPERTY",
        MARKER,
        SECRET_HINT,
    ];
    assert(texts(names@) =~= chatter_names());
    names
}

/// Whether a type goes by one of some names, the case of English letters
/// aside.
fn is_named(names: &[&str], mime: &str) -> (r: bool)
    ensures
        r == named(texts(names@), mime@),
{
    let mut i: usize = 0;
    while i < names.len()
        invariant
            i <= names.len(),
            forall|j: int|
                0 <= j < i ==> !text::same_but_case(#[trigger] texts(names@)[j], mime@),
        decreases names.len() - i,
    {
        if text::eq_ignore_ascii_case(names[i], mime) {
            assert(text::same_but_case(texts(names@)[i as int], mime@));
            return true;
        }
        i += 1;
    }
    false
}

/// Whether a type is one of some names.
fn is_listed(names: &[&str], mime: &str) -> (r: bool)
    ensures
        r == texts(names@).contains(mime@),
{
    let mut i: usize = 0;
    while i < names.len()
        invariant
            i <= names.len(),
            forall|j: int| 0 <= j < i ==> #[trigger] texts(names@)[j] != mime@,
        decreases names.len() - i,
    {
        if text::same(names[i], mime) {
            assert(texts(names@)[i as int] == mime@);
            return true;
        }
        i += 1;
    }
    false
}

/// Types of one's own, rather than borrowed ones.
pub fn own(list: &[&str]) -> (owned: Vec<String>)
    ensures
        owned_texts(owned@) == texts(list@),
{
    let mut owned: Vec<String> = Vec::new();
    let mut i: usize = 0;
    while i < list.len()
        invariant
            i <= list.len(),
            owned@.len() == i,
            forall|j: int| 0 <= j < i ==> (#[trigger] owned@[j])@ == list@[j]@,
        decreases list.len() - i,
    {
        owned.push(list[i].to_owned());
        i += 1;
    }
    assert(owned_texts(owned@) =~= texts(list@));
    owned
}

/// Whether a type is one of some owned names.
pub fn is_ignored(ignore: &[String], mime: &str) -> (r: bool)
    ensures
        r == owned_texts(ignore@).contains(mime@),
{
    let mut i: usize = 0;
    while i < ignore.len()
        invariant
            i <= ignore.len(),
            forall|j: int| 0 <= j < i ==> #[trigger] owned_texts(ignore@)[j] != mime@,
        decreases ignore.len() - i,
    {
        if text::same(ignore[i].as_str(), mime) {
            assert(owned_texts(ignore@)[i as int] == mime@);
            return true;
        }
        i += 1;
    }
    false
}

/// Whether a type is one of the interchangeable names for plain text.
fn is_text_alias(mime: &str) -> (r: bool)
    ensures
        r == text_alias(mime@),
{
    let names = text_types();
    is_named(names.as_slice(), mime)
}

/// Whether a type carries content at all, as opposed to being selection
/// bookkeeping or one of the bare X11 target names, which only the names for
/// text know what to do with.
fn is_content(mime: &str) -> (r: bool)
    ensures
        r == content(mime@),
{
    let names = chatter_types();
    !is_listed(names.as_slice(), mime) && text::contains_char(mime, '/')
}

/// Whether a payload in this type is text, and can therefore be shown as a
/// preview and offered under the text aliases.
pub fn is_text(mime: &str) -> (r: bool)
    ensures
        r == textual(mime@),
{
    is_text_alias(mime) || text::starts_with(mime, "text/") || text::same(mime, "application/json")
        || text::same(mime, "application/xml")
}

/// Whether a type names a file rather than carrying one, and is therefore
/// only true on the machine that copied it.
pub fn is_local(mime: &str) -> (r: bool)
    ensures
        r == local(mime@),
{
    let names = local_types();
    is_named(names.as_slice(), mime)
}

/// The best of the text types a selection offers.
fn best_text<'a>(offered: &'a [String]) -> (mime: Option<&'a str>)
    ensures
        match mime {
            Some(mime) => best_text_from(owned_texts(offered@), 0) == Some(mime@),
            None => best_text_from(owned_texts(offered@), 0) is None,
        },
{
    let names = text_types();
    let ghost all = owned_texts(offered@);
    let mut n: usize = 0;
    while n < names.len()
        invariant
            n <= names.len(),
            texts(names@) == text_names(),
            all == owned_texts(offered@),
            best_text_from(all, 0) == best_text_from(all, n as int),
        decreases names.len() - n,
    {
        let name = names[n];
        let ghost p = |mime: Seq<char>| text::same_but_case(mime, text_names()[n as int]);
        assert(name@ == texts(names@)[n as int]);
        let mut i: usize = 0;
        while i < offered.len()
            invariant
                i <= offered.len(),
                n < names.len(),
                all == owned_texts(offered@),
                name@ == text_names()[n as int],
                texts(names@) == text_names(),
                p == (|mime: Seq<char>| text::same_but_case(mime, text_names()[n as int])),
                best_text_from(all, 0) == best_text_from(all, n as int),
                forall|j: int| 0 <= j < i ==> !p(#[trigger] all[j]),
            decreases offered.len() - i,
        {
            let mime = offered[i].as_str();
            assert(mime@ == all[i as int]);
            if text::eq_ignore_ascii_case(mime, name) {
                proof {
                    lemma_first(all, p, i as int);
                }
                return Some(mime);
            }
            i += 1;
        }
        proof {
            assert(first(all, p) is None);
        }
        n += 1;
    }
    None
}

/// Only one place is the first of which something holds.
proof fn lemma_first(s: Seq<Seq<char>>, p: spec_fn(Seq<char>) -> bool, i: int)
    requires
        is_first(s, p, i),
    ensures
        first(s, p) == Some(s[i]),
{
    let j = choose|j: int| is_first(s, p, j);
    assert(is_first(s, p, j));
    if i < j {
        assert(!p(s[i]));
    } else if j < i {
        assert(!p(s[j]));
    }
}

/// The type that describes a selection: the one an entry is named by.
fn choose_type<'a>(offered: &'a [String]) -> (mime: Option<&'a str>)
    ensures
        match mime {
            Some(mime) => primary(owned_texts(offered@)) == Some(mime@),
            None => primary(owned_texts(offered@)) is None,
        },
{
    let ghost all = owned_texts(offered@);
    let ghost p = |mime: Seq<char>| content(mime);
    match best_text(offered) {
        Some(mime) => Some(mime),
        None => {
            let mut i: usize = 0;
            while i < offered.len()
                invariant
                    i <= offered.len(),
                    all == owned_texts(offered@),
                    p == (|mime: Seq<char>| content(mime)),
                    best_text_from(all, 0) is None,
                    forall|j: int| 0 <= j < i ==> !p(#[trigger] all[j]),
                decreases offered.len() - i,
            {
                let mime = offered[i].as_str();
                assert(mime@ == all[i as int]);
                if is_content(mime) {
                    proof {
                        lemma_first(all, p, i as int);
                    }
                    return Some(mime);
                }
                i += 1;
            }
            assert(first(all, p) is None);
            None
        },
    }
}

/// Picks the types to capture out of what a selection offers, best first.
///
/// The first is what the entry is: text when there is text, because text is
/// what a shared clipboard is mostly for and what every machine can serve
/// back; failing that, the first offered type that carries content at all.
/// The rest is everything else offered, so a pasting application on another
/// machine has the choice the source gave. Text aliases are not among them:
/// [`aliases`] serves those from the one text representation.
///
/// Nothing is captured when the type that would come first is one the user
/// told yank to ignore. `ignore-mime` is about a selection, not about one
/// representation of it: dropping only that one would share the same
/// selection under its next type.
pub fn select<'a>(offered: &'a [String], ignore: &[String]) -> (chosen: Vec<&'a str>)
    ensures
        texts(chosen@) == selected(owned_texts(offered@), owned_texts(ignore@)),
{
    let mut chosen: Vec<&'a str> = Vec::new();
    let ghost all = owned_texts(offered@);
    let ghost banned = owned_texts(ignore@);
    assert(texts(chosen@) =~= Seq::<Seq<char>>::empty());
    let name = match choose_type(offered) {
        Some(name) => name,
        None => {
            return chosen;
        },
    };
    if is_ignored(ignore, name) {
        return chosen;
    }
    chosen.push(name);
    assert(texts(chosen@) =~= carried(name@, all.take(0), banned));
    let mut i: usize = 0;
    while i < offered.len()
        invariant
            i <= offered.len(),
            all == owned_texts(offered@),
            banned == owned_texts(ignore@),
            texts(chosen@) == carried(name@, all.take(i as int), banned),
        decreases offered.len() - i,
    {
        let mime = offered[i].as_str();
        assert(mime@ == all[i as int]);
        assert(all.take(i + 1).drop_last() =~= all.take(i as int));
        let ghost before = texts(chosen@);
        assert(before.len() == chosen@.len());
        if chosen.len() < MAX_REPS && is_content(mime) && !is_text_alias(mime) && !is_ignored(
            ignore,
            mime,
        ) && !is_named(chosen.as_slice(), mime) {
            chosen.push(mime);
            assert(texts(chosen@) =~= before.push(mime@));
        }
        i += 1;
    }
    assert(all.take(i as int) =~= all);
    chosen
}

/// The types to announce for a payload captured as `mime`.
///
/// Text goes out under every name for text, the way `wl-copy` does it, so an
/// application asking for `UTF8_STRING` gets the same bytes as one asking for
/// `text/plain`. Anything else is offered as itself, a file reference
/// included: an application asking for `text/plain` wants the path, not the
/// URI list around it.
pub fn aliases(mime: &str) -> (aliases: Vec<String>)
    ensures
        owned_texts(aliases@) == announced(mime@),
{
    let mut aliases: Vec<String> = Vec::new();
    aliases.push(mime.to_owned());
    assert(owned_texts(aliases@) =~= seq![mime@]);
    if is_local(mime) || !is_text(mime) {
        return aliases;
    }
    let names = text_types();
    let mut i: usize = 0;
    assert(owned_texts(aliases@) =~= seq![mime@] + other_names(text_names().take(0), mime@));
    while i < names.len()
        invariant
            i <= names.len(),
            texts(names@) == text_names(),
            owned_texts(aliases@) == seq![mime@] + other_names(text_names().take(i as int), mime@),
        decreases names.len() - i,
    {
        let name = names[i];
        assert(name@ == texts(names@)[i as int]);
        assert(text_names().take(i + 1).drop_last() =~= text_names().take(i as int));
        let ghost before = owned_texts(aliases@);
        if !text::eq_ignore_ascii_case(name, mime) {
            aliases.push(name.to_owned());
            assert(owned_texts(aliases@) =~= before.push(name@));
        }
        i += 1;
        assert(owned_texts(aliases@) =~= seq![mime@] + other_names(
            text_names().take(i as int),
            mime@,
        ));
    }
    assert(text_names().take(i as int) =~= text_names());
    aliases
}

/// Whether no two of some types are the same, the case of English letters
/// aside.
pub open spec fn distinct(list: Seq<Seq<char>>) -> bool {
    forall|i: int, j: int|
        0 <= i < j < list.len() ==> !text::same_but_case(#[trigger] list[i], #[trigger] list[j])
}

proof fn lemma_carried(name: Seq<char>, offered: Seq<Seq<char>>, ignore: Seq<Seq<char>>)
    requires
        !ignore.contains(name),
    ensures
        ({
            let list = carried(name, offered, ignore);
            &&& 1 <= list.len() <= MAX_REPS
            &&& list[0] == name
            &&& distinct(list)
            &&& forall|i: int| 0 <= i < list.len() ==> !ignore.contains(#[trigger] list[i])
            &&& forall|i: int|
                1 <= i < list.len() ==> content(#[trigger] list[i]) && !text_alias(list[i])
                    && offered.contains(list[i])
        }),
    decreases offered.len(),
{
    if offered.len() > 0 {
        let rest = offered.drop_last();
        lemma_carried(name, rest, ignore);
        let chosen = carried(name, rest, ignore);
        let list = carried(name, offered, ignore);
        assert forall|i: int| 1 <= i < list.len() implies offered.contains(#[trigger] list[i]) by {
            if i < chosen.len() {
                assert(rest.contains(chosen[i]));
                let k = choose|k: int| 0 <= k < rest.len() && rest[k] == chosen[i];
                assert(offered[k] == list[i]);
            } else {
                assert(offered[offered.len() - 1] == list[i]);
            }
        }
        assert forall|i: int, j: int| 0 <= i < j < list.len() implies !text::same_but_case(
            #[trigger] list[i],
            #[trigger] list[j],
        ) by {
            if j == chosen.len() {
                assert(!named(chosen, list[j]));
                assert(!text::same_but_case(chosen[i], list[j]));
            }
        }
    }
}

proof fn lemma_best_text(offered: Seq<Seq<char>>, from: int)
    requires
        0 <= from,
    ensures
        match best_text_from(offered, from) {
            Some(mime) => offered.contains(mime) && text_alias(mime),
            None => forall|i: int, n: int|
                0 <= i < offered.len() && from <= n < text_names().len()
                    ==> !text::same_but_case(#[trigger] offered[i], #[trigger] text_names()[n]),
        },
    decreases text_names().len() - from,
{
    if from < text_names().len() {
        let name = text_names()[from];
        let p = |mime: Seq<char>| text::same_but_case(mime, name);
        if exists|i: int| is_first(offered, p, i) {
            let i = choose|i: int| is_first(offered, p, i);
            assert(is_first(offered, p, i));
            assert(offered.contains(offered[i]));
            assert(text::same_but_case(text_names()[from], offered[i]));
        } else {
            lemma_best_text(offered, from + 1);
            lemma_no_first(offered, p, offered.len() as int);
            assert forall|i: int, n: int|
                0 <= i < offered.len() && from <= n < text_names().len() && best_text_from(
                    offered,
                    from,
                ) is None implies !text::same_but_case(
                #[trigger] offered[i],
                #[trigger] text_names()[n],
            ) by {
                assert(!p(offered[i]));
            }
        }
    }
}

proof fn lemma_no_first(s: Seq<Seq<char>>, p: spec_fn(Seq<char>) -> bool, n: int)
    requires
        0 <= n <= s.len(),
        !exists|i: int| is_first(s, p, i),
    ensures
        forall|i: int| 0 <= i < n ==> !p(#[trigger] s[i]),
    decreases n,
{
    if n > 0 {
        lemma_no_first(s, p, n - 1);
        if p(s[n - 1]) {
            assert(is_first(s, p, n - 1));
        }
    }
}

proof fn lemma_primary(offered: Seq<Seq<char>>)
    ensures
        match primary(offered) {
            Some(mime) => offered.contains(mime) && (text_alias(mime) || content(mime)),
            None => true,
        },
        (exists|i: int| 0 <= i < offered.len() && text_alias(#[trigger] offered[i]))
            ==> primary(offered) is Some && text_alias(primary(offered)->0),
{
    lemma_best_text(offered, 0);
    match best_text_from(offered, 0) {
        Some(_) => {},
        None => {
            let p = |mime: Seq<char>| content(mime);
            if exists|i: int| is_first(offered, p, i) {
                let i = choose|i: int| is_first(offered, p, i);
                assert(is_first(offered, p, i));
                assert(offered.contains(offered[i]));
            }
            assert forall|i: int| 0 <= i < offered.len() implies !text_alias(#[trigger] offered[i]) by {
                if text_alias(offered[i]) {
                    let n = choose|n: int|
                        0 <= n < text_names().len() && text::same_but_case(
                            #[trigger] text_names()[n],
                            offered[i],
                        );
                    assert(text::same_but_case(offered[i], text_names()[n]));
                }
            }
        },
    }
}

/// Capturing a selection costs a bounded number of transfers, each of a type
/// that was offered, and none twice.
pub proof fn a_selection_costs_a_bounded_number_of_transfers(
    offered: Seq<Seq<char>>,
    ignore: Seq<Seq<char>>,
)
    ensures
        selected(offered, ignore).len() <= MAX_REPS,
        distinct(selected(offered, ignore)),
        forall|i: int|
            0 <= i < selected(offered, ignore).len() ==> offered.contains(
                #[trigger] selected(offered, ignore)[i],
            ),
{
    lemma_primary(offered);
    match primary(offered) {
        Some(mime) => {
            if !ignore.contains(mime) {
                lemma_carried(mime, offered, ignore);
            }
        },
        None => {},
    }
}

/// What is offered as text is named by its text.
pub proof fn text_wins_over_the_rest(
    offered: Seq<Seq<char>>,
    ignore: Seq<Seq<char>>,
    i: int,
)
    requires
        0 <= i < offered.len(),
        text_alias(offered[i]),
        selected(offered, ignore).len() > 0,
    ensures
        text_alias(selected(offered, ignore)[0]),
{
    lemma_primary(offered);
    lemma_carried(primary(offered)->0, offered, ignore);
}

/// A type the user told yank to ignore is never captured, and a selection
/// that would be named by one is not captured at all.
pub proof fn an_ignored_type_is_never_captured(
    offered: Seq<Seq<char>>,
    ignore: Seq<Seq<char>>,
    i: int,
)
    ensures
        0 <= i < selected(offered, ignore).len() ==> !ignore.contains(
            selected(offered, ignore)[i],
        ),
        primary(offered) is Some && ignore.contains(primary(offered)->0)
            ==> selected(offered, ignore).len() == 0,
{
    match primary(offered) {
        Some(mime) => {
            if !ignore.contains(mime) {
                lemma_carried(mime, offered, ignore);
            }
        },
        None => {},
    }
}

/// What is captured is text or carries content: it is never chatter, and never
/// the marker of a selection that is our own.
pub proof fn chatter_is_never_content(offered: Seq<Seq<char>>, ignore: Seq<Seq<char>>, i: int)
    requires
        0 <= i < selected(offered, ignore).len(),
    ensures
        text_alias(selected(offered, ignore)[i]) || content(selected(offered, ignore)[i]),
        !chatter_names().contains(selected(offered, ignore)[i]),
        selected(offered, ignore)[i] != MARKER@,
{
    let mime = selected(offered, ignore)[i];
    lemma_primary(offered);
    lemma_carried(primary(offered)->0, offered, ignore);
    assert(chatter_names()[7] == MARKER@);
    assert(chatter_names().contains(MARKER@));
    if chatter_names().contains(mime) {
        let n = choose|n: int| 0 <= n < chatter_names().len() && chatter_names()[n] == mime;
        lemma_chatter_is_no_text(n);
    }
}

proof fn lemma_chatter_is_no_text(n: int)
    requires
        0 <= n < chatter_names().len(),
    ensures
        !text_alias(chatter_names()[n]),
{
    reveal_strlit("text/plain;charset=utf-8");
    reveal_strlit("text/plain");
    reveal_strlit("UTF8_STRING");
    reveal_strlit("STRING");
    reveal_strlit("TEXT");
    reveal_strlit("TARGETS");
    reveal_strlit("TIMESTAMP");
    reveal_strlit("MULTIPLE");
    reveal_strlit("SAVE_TARGETS");
    reveal_strlit("DELETE");
    reveal_strlit("INSERT_SELECTION");
    reveal_strlit("INSERT_PROPERTY");
    reveal_strlit("application/x-yank");
    reveal_strlit("x-kde-passwordManagerHint");
    let mime = chatter_names()[n];
    assert forall|k: int| 0 <= k < text_names().len() implies !text::same_but_case(
        #[trigger] text_names()[k],
        mime,
    ) by {
        let name = text_names()[k];
        if name.len() == mime.len() {
            // Only `STRING` is as long as one of them, which is `DELETE`.
            assert(text::lower(name[0]) != text::lower(mime[0]));
        }
    }
}

/// Text is offered under every name for text.
pub proof fn text_is_offered_under_every_name(mime: Seq<char>, n: int)
    requires
        textual(mime),
        !local(mime),
        0 <= n < text_names().len(),
    ensures
        named(announced(mime), text_names()[n]),
{
    let name = text_names()[n];
    let all = announced(mime);
    if text::same_but_case(name, mime) {
        assert(all[0] == mime);
        assert(text::same_but_case(all[0], name));
    } else {
        lemma_other_names(text_names(), mime, n);
        let others = other_names(text_names(), mime);
        let k = choose|k: int| 0 <= k < others.len() && #[trigger] others[k] == name;
        assert(all[k + 1] == name);
        assert(text::same_but_case(all[k + 1], name));
    }
}

proof fn lemma_other_names(names: Seq<Seq<char>>, mime: Seq<char>, n: int)
    requires
        0 <= n < names.len(),
        !text::same_but_case(names[n], mime),
    ensures
        exists|k: int|
            0 <= k < other_names(names, mime).len() && #[trigger] other_names(names, mime)[k]
                == names[n],
    decreases names.len(),
{
    let rest = names.drop_last();
    let others = other_names(names, mime);
    if n == names.len() - 1 {
        assert(others[others.len() - 1] == names[n]);
    } else {
        lemma_other_names(rest, mime, n);
        let k = choose|k: int|
            0 <= k < other_names(rest, mime).len() && #[trigger] other_names(rest, mime)[k]
                == rest[n];
        assert(others[k] == names[n]);
    }
}

/// Whether a type goes by one of the names of plain text.
pub open spec fn is_plain(mime: Seq<char>) -> bool {
    ||| text::same_but_case("text/plain;charset=utf-8"@, mime)
    ||| text::same_but_case("text/plain"@, mime)
    ||| text::same_but_case("UTF8_STRING"@, mime)
    ||| text::same_but_case("STRING"@, mime)
    ||| text::same_but_case("TEXT"@, mime)
}

proof fn lemma_plain(mime: Seq<char>)
    ensures
        text_alias(mime) == is_plain(mime),
{
    let names = text_names();
    assert(names[0] == "text/plain;charset=utf-8"@);
    assert(names[1] == "text/plain"@);
    assert(names[2] == "UTF8_STRING"@);
    assert(names[3] == "STRING"@);
    assert(names[4] == "TEXT"@);
}

/// Every type with a slash in it carries content, but for the mark of our own
/// selections; no other does.
pub proof fn what_carries_content(mime: Seq<char>)
    ensures
        content(mime) <==> mime.contains('/') && mime != "application/x-yank"@,
{
    let names = chatter_names();
    assert(names[7] == "application/x-yank"@);
    if mime == "application/x-yank"@ {
        assert(names.contains(mime));
    } else if names.contains(mime) {
        let n = choose|n: int| 0 <= n < names.len() && names[n] == mime;
        lemma_chatter_has_no_slash(n);
    }
}

proof fn lemma_chatter_has_no_slash(n: int)
    requires
        0 <= n < chatter_names().len(),
        n != 7,
    ensures
        !chatter_names()[n].contains('/'),
{
    reveal_strlit("TARGETS");
    reveal_strlit("TIMESTAMP");
    reveal_strlit("MULTIPLE");
    reveal_strlit("SAVE_TARGETS");
    reveal_strlit("DELETE");
    reveal_strlit("INSERT_SELECTION");
    reveal_strlit("INSERT_PROPERTY");
    reveal_strlit("x-kde-passwordManagerHint");
    let name = chatter_names()[n];
    if name.contains('/') {
        let i = choose|i: int| 0 <= i < name.len() && name[i] == '/';
        assert(name[i] != '/');
    }
}

/// Whether a type is among some, the case of English letters aside.
pub open spec fn is_among(list: Seq<Seq<char>>, mime: Seq<char>) -> bool {
    exists|k: int| 0 <= k < list.len() && text::same_but_case(#[trigger] list[k], mime)
}

proof fn lemma_carries_all(name: Seq<char>, offered: Seq<Seq<char>>, ignore: Seq<Seq<char>>, i: int)
    requires
        0 <= i < offered.len(),
        offered[i].contains('/'),
        offered[i] != "application/x-yank"@,
        !is_plain(offered[i]),
        !ignore.contains(offered[i]),
    ensures
        is_among(carried(name, offered, ignore), offered[i]) || carried(
            name,
            offered,
            ignore,
        ).len() >= 8,
    decreases offered.len(),
{
    let rest = offered.drop_last();
    let before = carried(name, rest, ignore);
    let after = carried(name, offered, ignore);
    if i < rest.len() {
        lemma_carries_all(name, rest, ignore, i);
        if is_among(before, offered[i]) {
            let k = choose|k: int|
                0 <= k < before.len() && text::same_but_case(#[trigger] before[k], offered[i]);
            assert(after[k] == before[k]);
        }
    } else {
        what_carries_content(offered[i]);
        lemma_plain(offered[i]);
        if worth_carrying(before, offered[i], ignore) {
            assert(text::same_but_case(after[before.len() as int], offered[i]));
        } else if named(before, offered[i]) {
            let k = choose|k: int|
                0 <= k < before.len() && text::same_but_case(#[trigger] before[k], offered[i]);
            assert(after[k] == before[k]);
        }
    }
}

/// Whether two lists go in the same order: what comes earlier in one of two
/// types of it comes earlier in the other.
pub open spec fn keeps_order(list: Seq<Seq<char>>, offered: Seq<Seq<char>>, from: int) -> bool {
    exists|places: Seq<int>| #[trigger] is_placed(list, offered, from, places)
}

/// Whether each of some types from the `from`-th on is at its place in a list,
/// and the places go up.
pub open spec fn is_placed(
    list: Seq<Seq<char>>,
    offered: Seq<Seq<char>>,
    from: int,
    places: Seq<int>,
) -> bool {
    &&& places.len() == list.len()
    &&& forall|a: int|
        from <= a < list.len() ==> 0 <= #[trigger] places[a] < offered.len()
            && offered[places[a]] == list[a]
    &&& forall|a: int, b: int|
        from <= a < b < list.len() ==> #[trigger] places[a] < #[trigger] places[b]
}

proof fn lemma_carried_in_order(name: Seq<char>, offered: Seq<Seq<char>>, ignore: Seq<Seq<char>>)
    ensures
        keeps_order(carried(name, offered, ignore), offered, 1),
        carried(name, offered, ignore).len() >= 1,
        carried(name, offered, ignore)[0] == name,
    decreases offered.len(),
{
    if offered.len() == 0 {
        assert(is_placed(seq![name], offered, 1, seq![0int]));
    } else {
        let rest = offered.drop_last();
        lemma_carried_in_order(name, rest, ignore);
        let before = carried(name, rest, ignore);
        let after = carried(name, offered, ignore);
        let places = choose|places: Seq<int>| #[trigger] is_placed(before, rest, 1, places);
        if after.len() > before.len() {
            let more = places.push(offered.len() - 1);
            assert(is_placed(after, offered, 1, more)) by {
                assert forall|a: int| 1 <= a < after.len() implies 0 <= #[trigger] more[a]
                    < offered.len() && offered[more[a]] == after[a] by {
                    if a < before.len() {
                        assert(more[a] == places[a]);
                    }
                }
                assert forall|a: int, b: int| 1 <= a < b < after.len() implies #[trigger] more[a]
                    < #[trigger] more[b] by {
                    if b < before.len() {
                        assert(more[a] == places[a] && more[b] == places[b]);
                    } else {
                        assert(more[a] == places[a]);
                    }
                }
            }
        } else {
            assert(is_placed(after, offered, 1, places)) by {
                assert forall|a: int| 1 <= a < after.len() implies 0 <= #[trigger] places[a]
                    < offered.len() && offered[places[a]] == after[a] by {
                    assert(rest[places[a]] == offered[places[a]]);
                }
            }
        }
    }
}

/// A selection that is captured is captured in every type it is offered in that
/// carries content, besides the one that names it: but for the other names of
/// plain text, and for what the user told yank to ignore, and no more than eight
/// in all. They come in the order in which they were offered.
pub proof fn every_type_worth_having_is_captured(
    offered: Seq<Seq<char>>,
    ignore: Seq<Seq<char>>,
    i: int,
)
    requires
        0 <= i < offered.len(),
        selected(offered, ignore).len() > 0,
    ensures
        offered[i].contains('/') && offered[i] != "application/x-yank"@ && !is_plain(offered[i])
            && !ignore.contains(offered[i]) ==> is_among(selected(offered, ignore), offered[i])
            || selected(offered, ignore).len() >= 8,
        keeps_order(selected(offered, ignore), offered, 1),
{
    let name = primary(offered)->0;
    if offered[i].contains('/') && offered[i] != "application/x-yank"@ && !is_plain(offered[i])
        && !ignore.contains(offered[i]) {
        lemma_carries_all(name, offered, ignore, i);
    }
    lemma_carried_in_order(name, offered, ignore);
}

proof fn lemma_best_name(offered: Seq<Seq<char>>, from: int, n: int, i: int)
    requires
        0 <= from <= n < text_names().len(),
        0 <= i < offered.len(),
        text::same_but_case(offered[i], text_names()[n]),
        forall|j: int, m: int|
            0 <= j < offered.len() && from <= m < n ==> !text::same_but_case(
                #[trigger] offered[j],
                #[trigger] text_names()[m],
            ),
    ensures
        best_text_from(offered, from) matches Some(mime) && text::same_but_case(
            mime,
            text_names()[n],
        ) && offered.contains(mime),
    decreases n - from,
{
    let name = text_names()[from];
    let p = |mime: Seq<char>| text::same_but_case(mime, name);
    if from < n {
        if exists|k: int| is_first(offered, p, k) {
            let k = choose|k: int| is_first(offered, p, k);
            assert(is_first(offered, p, k));
            assert(!text::same_but_case(offered[k], text_names()[from]));
        }
        lemma_best_name(offered, from + 1, n, i);
    } else {
        if !exists|k: int| is_first(offered, p, k) {
            lemma_no_first(offered, p, offered.len() as int);
            assert(!p(offered[i]));
        }
        let k = choose|k: int| is_first(offered, p, k);
        assert(is_first(offered, p, k));
        assert(offered.contains(offered[k]));
    }
}

/// A selection that is offered as plain text is captured, named by the best of
/// the names it is offered under; unless the user told yank to ignore that.
pub proof fn text_is_captured_by_its_best_name(
    offered: Seq<Seq<char>>,
    ignore: Seq<Seq<char>>,
    n: int,
    i: int,
)
    requires
        0 <= n < 5,
        0 <= i < offered.len(),
        ({
            let names = seq![
                "text/plain;charset=utf-8"@,
                "text/plain"@,
                "UTF8_STRING"@,
                "STRING"@,
                "TEXT"@,
            ];
            &&& text::same_but_case(offered[i], names[n])
            &&& forall|j: int, m: int|
                0 <= j < offered.len() && 0 <= m < n ==> !text::same_but_case(
                    #[trigger] offered[j],
                    #[trigger] names[m],
                )
            &&& forall|j: int|
                0 <= j < offered.len() && text::same_but_case(#[trigger] offered[j], names[n])
                    ==> !ignore.contains(offered[j])
        }),
    ensures
        selected(offered, ignore).len() > 0,
        text::same_but_case(selected(offered, ignore)[0], offered[i]),
{
    let names = seq![
        "text/plain;charset=utf-8"@,
        "text/plain"@,
        "UTF8_STRING"@,
        "STRING"@,
        "TEXT"@,
    ];
    assert(names =~= text_names());
    lemma_best_name(offered, 0, n, i);
    let mime = primary(offered)->0;
    let k = choose|k: int| 0 <= k < offered.len() && offered[k] == mime;
    assert(text::same_but_case(offered[k], names[n]));
    lemma_carried_in_order(mime, offered, ignore);
}

/// A selection that is not offered as plain text is named by the first type it
/// is offered in that carries content; unless the user told yank to ignore that.
pub proof fn what_is_no_text_is_named_by_its_first_content(
    offered: Seq<Seq<char>>,
    ignore: Seq<Seq<char>>,
    i: int,
)
    requires
        0 <= i < offered.len(),
        offered[i].contains('/') && offered[i] != "application/x-yank"@,
        !ignore.contains(offered[i]),
        forall|j: int| 0 <= j < offered.len() ==> !is_plain(#[trigger] offered[j]),
        forall|j: int|
            0 <= j < i ==> !((#[trigger] offered[j]).contains('/') && offered[j]
                != "application/x-yank"@),
    ensures
        selected(offered, ignore).len() > 0,
        selected(offered, ignore)[0] == offered[i],
{
    lemma_best_text(offered, 0);
    if let Some(mime) = best_text_from(offered, 0) {
        let k = choose|k: int| 0 <= k < offered.len() && offered[k] == mime;
        lemma_plain(offered[k]);
    }
    let p = |mime: Seq<char>| content(mime);
    assert forall|j: int| 0 <= j <= i implies p(#[trigger] offered[j]) == (j == i) by {
        what_carries_content(offered[j]);
    }
    assert(is_first(offered, p, i));
    let k = choose|k: int| is_first(offered, p, k);
    assert(is_first(offered, p, k));
    if k < i {
        assert(!p(offered[k]));
    }
    assert(k == i);
    lemma_carried_in_order(offered[i], offered, ignore);
}

/// Nothing is captured of a selection that is offered neither as plain text nor
/// in any type that carries content.
pub proof fn chatter_alone_is_not_captured(offered: Seq<Seq<char>>, ignore: Seq<Seq<char>>)
    requires
        forall|j: int|
            0 <= j < offered.len() ==> !is_plain(#[trigger] offered[j]) && !(offered[j].contains(
                '/',
            ) && offered[j] != "application/x-yank"@),
    ensures
        selected(offered, ignore).len() == 0,
{
    lemma_primary(offered);
    if let Some(mime) = primary(offered) {
        let k = choose|k: int| 0 <= k < offered.len() && offered[k] == mime;
        lemma_plain(offered[k]);
        what_carries_content(offered[k]);
    }
}


} // verus!
