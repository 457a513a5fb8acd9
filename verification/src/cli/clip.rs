//! The clipboard commands: copying, pasting, and the shared history.

use crate::cli::status;
use crate::cli::status::{expiry_of, preview_of};
use crate::cli::ui;
use crate::cli::Situation;
use crate::daemon::control::protocol::{HistoryEntry, Request};
use crate::time::Span;
use vstd::prelude::*;

verus! {

/// Copy something to every machine.
#[derive(Debug)]
pub struct CopyArgs {
    /// Text to copy; standard input is read when this is left out. With
    /// `files`, the files to copy.
    pub text: Vec<String>,
    /// Copy files, contents and all.
    pub files: bool,
    /// Drop it everywhere after this long.
    pub ttl: Option<Span>,
    /// Treat it as a password.
    pub secret: bool,
    /// Type to copy it as.
    pub mime: String,
}

/// Print what is on the clipboard.
#[derive(Debug)]
pub struct PasteArgs {
    /// Entry to print; the current one by default.
    pub entry: Option<String>,
    /// Print the types the entry carries instead of the contents.
    pub mime: bool,
    /// Type to print it in, when the entry carries several.
    pub mime_type: Option<String>,
}

/// Write an entry's files here.
#[derive(Debug)]
pub struct GetArgs {
    /// Entry to write; the current one by default.
    pub entry: Option<String>,
}

/// List the shared history, newest first.
#[derive(Clone, Copy, Debug)]
pub struct ListArgs {
    /// How many entries to show.
    pub limit: Option<usize>,
    /// Print only the entry names, one per line, for scripts and pickers.
    pub plain: bool,
}

/// Put an entry from the history back on the clipboard.
#[derive(Debug)]
pub struct PickArgs {
    pub entry: String,
}

/// Remove an entry from every machine.
#[derive(Debug)]
pub struct RmArgs {
    pub entry: String,
}

/// Empty the clipboard on every machine.
#[derive(Clone, Copy, Debug)]
pub struct ClearArgs {
    /// Drop the whole shared history as well.
    pub history: bool,
}

/// Some words with a blank between them.
pub open spec fn sentence(words: Seq<Seq<char>>) -> Seq<char>
    decreases words.len(),
{
    if words.len() == 0 {
        Seq::empty()
    } else if words.len() == 1 {
        words[0]
    } else {
        sentence(words.drop_last()) + " "@ + words.last()
    }
}

fn joined(words: &Vec<String>) -> (t: String)
    ensures
        t@ == sentence(status::line_views(words@)),
{
    let ghost all = status::line_views(words@);
    let mut t = String::new();
    let mut i: usize = 0;
    assert(all.take(0) =~= Seq::empty());
    while i < words.len()
        invariant
            i <= words.len(),
            all == status::line_views(words@),
            t@ == sentence(all.take(i as int)),
        decreases words.len() - i,
    {
        assert(all.take(i + 1).drop_last() =~= all.take(i as int));
        assert(all[i as int] == words@[i as int]@);
        if i > 0 {
            t.append(" ");
        }
        let ghost before = t@;
        t.append(words[i].as_str());
        assert(i == 0 ==> t@ =~= words@[0]@);
        i += 1;
    }
    assert(all.take(i as int) =~= all);
    t
}

/// The whole seconds of a lifetime there may be.
pub open spec fn lifetime(ttl: Option<Span>) -> Option<u64> {
    match ttl {
        Some(ttl) => Some(ttl.whole_secs()),
        None => None,
    }
}

/// Whether standard input is what is copied.
pub fn reads_input(args: &CopyArgs) -> (r: bool)
    ensures
        r == (!args.files && args.text@.len() == 0),
{
    !args.files && args.text.len() == 0
}

/// What `yank copy` asks of the daemon, `input` being what was read from
/// standard input.
pub fn copy(args: CopyArgs, input: Vec<u8>) -> (request: Request)
    ensures
        if args.files {
            request == (Request::CopyFiles { paths: args.text, ttl_secs: lifetime(args.ttl) })
        } else {
            &&& request matches Request::Copy { mime, bytes, secret, ttl_secs }
            &&& mime == args.mime
            &&& secret == args.secret
            &&& ttl_secs == lifetime(args.ttl)
            &&& bytes@ == (if args.text@.len() == 0 {
                input@
            } else {
                vstd::utf8::encode_utf8(sentence(status::line_views(args.text@)))
            })
        },
{
    let ttl_secs: Option<u64> = match args.ttl {
        Some(ttl) => Some(ttl.as_secs()),
        None => None,
    };
    if args.files {
        return Request::CopyFiles { paths: args.text, ttl_secs };
    }
    let bytes = if args.text.len() == 0 {
        input
    } else {
        let t = joined(&args.text);
        vstd::slice::slice_to_vec(t.as_str().as_bytes())
    };
    Request::Copy { mime: args.mime, bytes, secret: args.secret, ttl_secs }
}

/// What `yank paste` asks of the daemon.
pub fn paste(args: &PasteArgs) -> (request: Request)
    ensures
        request matches Request::Paste { entry, mime } && (match (entry, args.entry) {
            (Some(a), Some(b)) => a@ == b@,
            (None, None) => true,
            _ => false,
        }) && (match (mime, args.mime_type) {
            (Some(a), Some(b)) => a@ == b@,
            (None, None) => true,
            _ => false,
        }),
{
    let entry = match &args.entry {
        Some(entry) => Some(entry.clone()),
        None => None,
    };
    let mime = match &args.mime_type {
        Some(mime) => Some(mime.clone()),
        None => None,
    };
    Request::Paste { entry, mime }
}

/// What `yank paste` prints.
#[derive(Debug)]
pub enum Pasted {
    Lines(Vec<String>),
    Bytes(Vec<u8>),
}

/// What `yank paste` prints of the contents of an entry. A terminal wants the
/// prompt back on its own line; a pipe wants exactly the bytes that were
/// copied.
pub fn pasted(
    args: &PasteArgs,
    mime: String,
    alternates: Vec<String>,
    bytes: Vec<u8>,
    terminal: bool,
) -> (printed: Pasted)
    ensures
        match printed {
            Pasted::Lines(lines) => args.mime && status::line_views(lines@) == seq![mime@]
                + status::line_views(alternates@),
            Pasted::Bytes(out) => !args.mime && out@ == (if terminal && (bytes@.len() == 0
                || bytes@.last() != 0x0a) {
                bytes@.push(0x0a)
            } else {
                bytes@
            }),
        },
{
    if args.mime {
        let mut lines = alternates;
        lines.insert(0, mime);
        assert(status::line_views(lines@) =~= seq![mime@] + status::line_views(alternates@));
        return Pasted::Lines(lines);
    }
    let mut out = bytes;
    if terminal && (out.len() == 0 || out[out.len() - 1] != 0x0a) {
        out.push(0x0a);
    }
    Pasted::Bytes(out)
}

/// What `yank get` asks of the daemon.
pub fn get(args: GetArgs) -> (request: Request)
    ensures
        request == (Request::Files { entry: args.entry }),
{
    Request::Files { entry: args.entry }
}

/// Where the files of an entry are, once they are all here.
pub fn got(label: String, tree: Option<String>) -> (found: Result<String, Situation>)
    ensures
        match tree {
            Some(tree) => found == Ok::<String, Situation>(tree),
            None => found == Err::<String, Situation>(Situation::FilesPending { label }),
        },
{
    match tree {
        Some(tree) => Ok(tree),
        None => Err(Situation::FilesPending { label }),
    }
}

/// What `yank list` asks of the daemon.
pub fn list(args: &ListArgs) -> (request: Request)
    ensures
        request == (Request::History { limit: args.limit }),
{
    Request::History { limit: args.limit }
}

/// One entry's contents, with its lifetime when it has one.
pub open spec fn preview_text(entry: HistoryEntry) -> Seq<char> {
    match entry.expires_in_secs {
        Some(secs) => status::shown_preview(entry) + " "@ + status::shown_expiry(secs),
        None => status::shown_preview(entry),
    }
}

/// One entry's contents, with its lifetime when it has one.
pub fn preview(entry: &HistoryEntry) -> (t: String)
    ensures
        t@ == preview_text(*entry),
{
    let mut t = preview_of(entry);
    if let Some(secs) = entry.expires_in_secs {
        t.append(" ");
        t.append(expiry_of(secs).as_str());
    }
    t
}

/// The names of some entries.
pub open spec fn labels(entries: Seq<HistoryEntry>) -> Seq<Seq<char>> {
    entries.map_values(|entry: HistoryEntry| entry.label@)
}

/// The machines some entries came from.
pub open spec fn origins(entries: Seq<HistoryEntry>) -> Seq<Seq<char>> {
    entries.map_values(|entry: HistoryEntry| entry.origin@)
}

/// The line of an entry, in columns so wide: whether it is on the clipboard,
/// its name, where it came from, how old it is and what it holds.
pub open spec fn entry_line(entry: HistoryEntry, label: nat, origin: nat) -> Seq<char> {
    let age = ui::duration_text(entry.age_secs as nat);
    (if entry.selected {
        "*"@
    } else {
        " "@
    }) + " "@ + ui::painted(ui::Style::Heading, entry.label@) + ui::blanks(
        label - entry.label@.len(),
    ) + " "@ + ui::painted(ui::Style::Dim, entry.origin@) + ui::blanks(
        origin - entry.origin@.len(),
    ) + " "@ + ui::painted(ui::Style::Dim, ui::blanks(4 - age.len()) + age) + " "@ + preview_text(
        entry,
    )
}

/// What `yank list` prints.
pub open spec fn list_lines(entries: Seq<HistoryEntry>, plain: bool) -> Seq<Seq<char>> {
    if entries.len() == 0 {
        seq![ui::painted(ui::Style::Dim, "The shared history is empty."@)]
    } else if plain {
        labels(entries)
    } else {
        entries.map_values(
            |entry: HistoryEntry|
                entry_line(entry, ui::widest(labels(entries)), ui::widest(origins(entries))),
        )
    }
}

/// The line of an entry, in columns so wide.
fn line_of(entry: &HistoryEntry, label: usize, origin: usize) -> (line: String)
    ensures
        line@ == entry_line(*entry, label as nat, origin as nat),
{
    let mut line = if entry.selected {
        "*".to_owned()
    } else {
        " ".to_owned()
    };
    line.append(" ");
    line.append(ui::heading(entry.label.as_str()).as_str());
    ui::fill(&mut line, entry.label.as_str(), label);
    line.append(" ");
    line.append(ui::dim(entry.origin.as_str()).as_str());
    ui::fill(&mut line, entry.origin.as_str(), origin);
    line.append(" ");
    let age = ui::duration(entry.age_secs);
    let mut right = String::new();
    ui::fill(&mut right, age.as_str(), 4);
    assert(right@ =~= ui::blanks(4 - age@.len()));
    right.append(age.as_str());
    line.append(ui::dim(right.as_str()).as_str());
    line.append(" ");
    line.append(preview(entry).as_str());
    line
}

/// What `yank list` prints.
pub fn listed(entries: &Vec<HistoryEntry>, plain: bool) -> (lines: Vec<String>)
    ensures
        status::line_views(lines@) == list_lines(entries@, plain),
{
    let ghost all = list_lines(entries@, plain);
    let mut lines: Vec<String> = Vec::new();
    if entries.len() == 0 {
        lines.push(ui::dim("The shared history is empty."));
        assert(status::line_views(lines@) =~= all);
        return lines;
    }
    let mut names: Vec<&str> = Vec::new();
    let mut machines: Vec<&str> = Vec::new();
    let mut i: usize = 0;
    while i < entries.len()
        invariant
            i <= entries.len(),
            names@.len() == i,
            machines@.len() == i,
            forall|j: int| 0 <= j < i ==> (#[trigger] names@[j])@ == entries@[j].label@,
            forall|j: int| 0 <= j < i ==> (#[trigger] machines@[j])@ == entries@[j].origin@,
        decreases entries.len() - i,
    {
        names.push(entries[i].label.as_str());
        machines.push(entries[i].origin.as_str());
        i += 1;
    }
    assert(ui::texts(names@) =~= labels(entries@));
    assert(ui::texts(machines@) =~= origins(entries@));
    let label: usize = ui::width(names.as_slice());
    let origin: usize = ui::width(machines.as_slice());
    i = 0;
    assert(status::line_views(lines@) =~= all.take(0));
    while i < entries.len()
        invariant
            i <= entries.len(),
            entries@.len() > 0,
            all == list_lines(entries@, plain),
            label == ui::widest(labels(entries@)),
            origin == ui::widest(origins(entries@)),
            status::line_views(lines@) == all.take(i as int),
        decreases entries.len() - i,
    {
        let line = if plain {
            entries[i].label.clone()
        } else {
            line_of(&entries[i], label, origin)
        };
        assert(line@ == all[i as int]);
        let ghost so_far = status::line_views(lines@);
        lines.push(line);
        assert(status::line_views(lines@) =~= so_far.push(all[i as int]));
        i += 1;
        assert(all.take(i as int) =~= so_far.push(all[i - 1]));
    }
    assert(all.take(i as int) =~= all);
    lines
}

/// What `yank pick` asks of the daemon.
pub fn pick(args: PickArgs) -> (request: Request)
    ensures
        request == (Request::Pick { entry: args.entry }),
{
    Request::Pick { entry: args.entry }
}

/// What `yank rm` asks of the daemon.
pub fn rm(args: RmArgs) -> (request: Request)
    ensures
        request == (Request::Forget { entry: args.entry }),
{
    Request::Forget { entry: args.entry }
}

/// What `yank clear` asks of the daemon.
pub fn clear(args: &ClearArgs) -> (request: Request)
    ensures
        request == (Request::Clear { history: args.history }),
{
    Request::Clear { history: args.history }
}

/// What is said of an entry that was copied.
pub fn copied(label: &str) -> (line: String)
    ensures
        line@ == ui::painted(ui::Style::Good, "Copied as "@ + label@),
{
    let mut t = "Copied as ".to_owned();
    t.append(label);
    ui::good(t.as_str())
}

/// What is said of an entry that was removed.
pub fn removed(label: &str) -> (line: String)
    ensures
        line@ == ui::painted(ui::Style::Good, "Removed "@ + label@ + " everywhere"@),
{
    let mut t = "Removed ".to_owned();
    t.append(label);
    t.append(" everywhere");
    ui::good(t.as_str())
}

/// What is said of a clipboard that was emptied.
pub fn cleared(args: &ClearArgs) -> (line: String)
    ensures
        line@ == ui::painted(
            ui::Style::Good,
            if args.history {
                "Cleared the clipboard and history everywhere"@
            } else {
                "Cleared the clipboard everywhere"@
            },
        ),
{
    if args.history {
        ui::good("Cleared the clipboard and history everywhere")
    } else {
        ui::good("Cleared the clipboard everywhere")
    }
}

/// Words are put together with one blank between them, and none at either end:
/// what two lists of words say together is what each says, with a blank
/// between.
pub proof fn words_stand_a_blank_apart(first: Seq<Seq<char>>, rest: Seq<Seq<char>>, word: Seq<char>)
    requires
        first.len() > 0,
        rest.len() > 0,
    ensures
        sentence(first + rest) == sentence(first) + seq![' '] + sentence(rest),
        sentence(seq![word]) == word,
    decreases rest.len(),
{
    reveal_strlit(" ");
    let all = first + rest;
    assert(all.last() == rest.last());
    if rest.len() == 1 {
        assert(all.drop_last() =~= first);
        assert(sentence(all) =~= sentence(first) + seq![' '] + sentence(rest));
    } else {
        assert(all.drop_last() =~= first + rest.drop_last());
        words_stand_a_blank_apart(first, rest.drop_last(), word);
        assert(sentence(all) =~= sentence(first) + seq![' '] + sentence(rest));
    }
}

/// A lifetime is asked for in whole seconds, and none where none was given.
pub proof fn a_lifetime_is_asked_for_in_seconds(ttl: Span, secs: u64)
    requires
        secs * 1_000_000_000 <= ttl.nanos < (secs + 1) * 1_000_000_000,
    ensures
        lifetime(Some(ttl)) == Some(secs),
        lifetime(None) is None,
{
    assert(ttl.nanos / 1_000_000_000 == secs);
}

/// The history is listed one entry to a line, in its order: by their names
/// alone, or with an asterisk before what is on the clipboard, the name after
/// it, and what it holds at the end.
pub proof fn every_entry_has_its_line(entries: Seq<HistoryEntry>, i: int)
    requires
        0 <= i < entries.len(),
    ensures
        list_lines(entries, true).len() == entries.len(),
        list_lines(entries, false).len() == entries.len(),
        list_lines(entries, true)[i] == entries[i].label@,
        ({
            let line = list_lines(entries, false)[i];
            let entry = entries[i];
            &&& line[0] == (if entry.selected {
                '*'
            } else {
                ' '
            })
            &&& line[1] == ' '
            &&& line.subrange(6, 6int + entry.label@.len()) == entry.label@
            &&& !entry.secret && entry.expires_in_secs is None ==> entry.preview@.is_suffix_of(line)
        }),
{
    reveal_strlit("*");
    reveal_strlit(" ");
    reveal_strlit("\u{1b}[1m");
    let entry = entries[i];
    let line = list_lines(entries, false)[i];
    let label = ui::widest(labels(entries));
    let origin = ui::widest(origins(entries));
    assert(line == entry_line(entry, label, origin));
    let mark = if entry.selected {
        "*"@
    } else {
        " "@
    };
    let age = ui::duration_text(entry.age_secs as nat);
    let rest = "\u{1b}[0m"@ + ui::blanks(label - entry.label@.len()) + " "@ + ui::painted(
        ui::Style::Dim,
        entry.origin@,
    ) + ui::blanks(origin - entry.origin@.len()) + " "@ + ui::painted(
        ui::Style::Dim,
        ui::blanks(4 - age.len()) + age,
    ) + " "@ + preview_text(entry);
    assert(line =~= mark + " "@ + "\u{1b}[1m"@ + entry.label@ + rest);
    assert(line.subrange(6, 6int + entry.label@.len()) =~= entry.label@);
    if !entry.secret && entry.expires_in_secs is None {
        assert(line.skip(line.len() - entry.preview@.len()) =~= entry.preview@);
    }
}

} // verus!
