//! What a person is told when a request fails.

use crate::clip::model::ClipError;
use crate::clip::preview;
use crate::config::name;
use crate::config::name::{sanitize, sanitize_bounded};
use crate::daemon::clip::ServiceError;
use crate::files::manifest::ManifestError;
use crate::files::walk::WalkError;
use crate::log::{EntryId, LogError};
use crate::net::pair::PairError;
use crate::net::ticket::TicketError;
use crate::text;
use vstd::prelude::*;

verus! {

/// Some text between two others.
pub open spec fn around(head: Seq<char>, middle: Seq<char>, tail: Seq<char>) -> Seq<char> {
    head + middle + tail
}

/// Some text between two others.
fn wrap(head: &str, middle: &str, tail: &str) -> (told: String)
    ensures
        told@ == around(head@, middle@, tail@),
{
    let mut told = head.to_owned();
    told.append(middle);
    told.append(tail);
    told
}

/// What is told of a manifest.
pub open spec fn manifest_text(error: ManifestError) -> Seq<char> {
    match error {
        ManifestError::Unsafe => "a file path is not safe"@,
        ManifestError::NotNormalized => "a file path is not normalized"@,
        ManifestError::Clash => "two files would occupy the same path"@,
        ManifestError::TooLarge => "the file manifest is too large"@,
    }
}

/// What is told of a manifest.
pub fn tell_manifest(error: ManifestError) -> (told: &'static str)
    ensures
        told@ == manifest_text(error),
{
    match error {
        ManifestError::Unsafe => "a file path is not safe",
        ManifestError::NotNormalized => "a file path is not normalized",
        ManifestError::Clash => "two files would occupy the same path",
        ManifestError::TooLarge => "the file manifest is too large",
    }
}

/// What is told of an entry.
pub open spec fn entry_text(id: EntryId, what: Seq<char>) -> Seq<char> {
    around("entry "@, id.label_text(), what)
}

fn tell_entry(id: EntryId, what: &str) -> (told: String)
    ensures
        told@ == entry_text(id, what@),
{
    let label = id.label();
    wrap("entry ", label.as_str(), what)
}

/// What is told when the clipboard refuses something, under this limit for one
/// selection and with this typed.
pub open spec fn clip_text(error: ClipError, limit: u64, needle: Seq<char>) -> Seq<char> {
    match error {
        ClipError::Nothing => "nothing to copy"@,
        ClipError::TooLarge => around(
            "the selection is larger than the "@,
            preview::size_text(limit),
            " limit in config.toml"@,
        ),
        ClipError::Log(LogError::TooLarge(bytes)) => around(
            "entry is larger than the "@,
            text::decimal_digits(bytes as nat),
            " byte limit"@,
        ),
        ClipError::Log(LogError::OwnIdentity) => "a peer sent an entry under our own identity"@,
        ClipError::Log(LogError::NoSequence) => "an entry has no sequence number"@,
        ClipError::Manifest(error) => manifest_text(error),
        ClipError::Gone(id) => entry_text(id, " is gone"@),
        ClipError::NotACopy(id) => entry_text(id, " is not a copied selection"@),
        ClipError::Undecodable(id) => "cannot decode the clipboard event"@,
        ClipError::NoMatch => around("no entry matching `"@, name::sanitized(needle), "`"@),
        ClipError::Ambiguous(n) => around(
            around("`"@, name::sanitized(needle), "` matches "@),
            text::decimal_digits(n as nat),
            " entries"@,
        ),
        ClipError::Empty => "the clipboard is empty"@,
    }
}

/// What is told when the clipboard refuses something, under this limit for one
/// selection and with this typed.
pub fn tell_clip(error: ClipError, limit: u64, needle: &str) -> (told: String)
    ensures
        told@ == clip_text(error, limit, needle@),
{
    match error {
        ClipError::Nothing => "nothing to copy".to_owned(),
        ClipError::TooLarge => {
            let size = preview::byte_size(limit);
            wrap("the selection is larger than the ", size.as_str(), " limit in config.toml")
        },
        ClipError::Log(LogError::TooLarge(bytes)) => {
            let size = text::decimal(bytes as u128);
            wrap("entry is larger than the ", size.as_str(), " byte limit")
        },
        ClipError::Log(LogError::OwnIdentity) =>
            "a peer sent an entry under our own identity".to_owned(),
        ClipError::Log(LogError::NoSequence) => "an entry has no sequence number".to_owned(),
        ClipError::Manifest(error) => tell_manifest(error).to_owned(),
        ClipError::Gone(id) => tell_entry(id, " is gone"),
        ClipError::NotACopy(id) => tell_entry(id, " is not a copied selection"),
        ClipError::Undecodable(_) => "cannot decode the clipboard event".to_owned(),
        ClipError::NoMatch => {
            let shown = sanitize(needle);
            wrap("no entry matching `", shown.as_str(), "`")
        },
        ClipError::Ambiguous(n) => {
            let shown = sanitize(needle);
            let head = wrap("`", shown.as_str(), "` matches ");
            let count = text::decimal(n as u128);
            wrap(head.as_str(), count.as_str(), " entries")
        },
        ClipError::Empty => "the clipboard is empty".to_owned(),
    }
}

/// Some texts, with a comma between them.
pub open spec fn listed(types: Seq<Seq<char>>) -> Seq<char>
    decreases types.len(),
{
    if types.len() == 0 {
        Seq::empty()
    } else if types.len() == 1 {
        types[0]
    } else {
        around(listed(types.drop_last()), ", "@, types.last())
    }
}

fn list(types: &Vec<String>) -> (told: String)
    ensures
        told@ == listed(crate::clip::mime::owned_texts(types@)),
{
    let ghost all = crate::clip::mime::owned_texts(types@);
    let mut told = String::new();
    let mut i: usize = 0;
    assert(told@ =~= listed(all.take(0)));
    while i < types.len()
        invariant
            i <= types.len(),
            all == crate::clip::mime::owned_texts(types@),
            told@ == listed(all.take(i as int)),
        decreases types.len() - i,
    {
        let ghost before = told@;
        if i > 0 {
            told.append(", ");
        }
        told.append(types[i].as_str());
        assert(all.take(i + 1).drop_last() =~= all.take(i as int));
        assert(all.take(i + 1).last() == types@[i as int]@);
        i += 1;
        assert(told@ =~= listed(all.take(i as int)));
    }
    assert(all.take(i as int) =~= all);
    told
}

/// Why a request to the clipboard fails, for contracts.
pub enum FailureView {
    Clip(ClipError),
    FilesOff,
    NoFiles(EntryId),
    CopiedHere(EntryId),
    NoSuchType { id: EntryId, types: Seq<Seq<char>> },
}

impl View for ServiceError {
    type V = FailureView;

    open spec fn view(&self) -> FailureView {
        match *self {
            ServiceError::Clip(error) => FailureView::Clip(error),
            ServiceError::FilesOff => FailureView::FilesOff,
            ServiceError::NoFiles(id) => FailureView::NoFiles(id),
            ServiceError::CopiedHere(id) => FailureView::CopiedHere(id),
            ServiceError::NoSuchType { id, types } => FailureView::NoSuchType {
                id,
                types: crate::clip::mime::owned_texts(types@),
            },
        }
    }
}

/// What is told when a request to the clipboard fails, with this typed and this
/// type asked for.
pub open spec fn failure_text(
    error: FailureView,
    limit: u64,
    needle: Seq<char>,
    mime: Seq<char>,
) -> Seq<char> {
    match error {
        FailureView::Clip(error) => clip_text(error, limit, needle),
        FailureView::FilesOff => "sharing files is turned off in config.toml"@,
        FailureView::NoFiles(id) => entry_text(id, " names no file"@),
        FailureView::CopiedHere(id) => entry_text(
            id,
            " was copied here; its files are where they always were"@,
        ),
        FailureView::NoSuchType { id, types } => around(
            entry_text(id, around(" has no "@, name::sanitized(mime), " in it; it has "@)),
            listed(types),
            ""@,
        ),
    }
}

/// What is told when a request to the clipboard fails, with this typed and this
/// type asked for.
pub fn tell_failure(error: &ServiceError, limit: u64, needle: &str, mime: &str) -> (told: String)
    ensures
        told@ == failure_text(error@, limit, needle@, mime@),
{
    match error {
        ServiceError::Clip(error) => tell_clip(*error, limit, needle),
        ServiceError::FilesOff => "sharing files is turned off in config.toml".to_owned(),
        ServiceError::NoFiles(id) => tell_entry(*id, " names no file"),
        ServiceError::CopiedHere(id) => tell_entry(
            *id,
            " was copied here; its files are where they always were",
        ),
        ServiceError::NoSuchType { id, types } => {
            let shown = sanitize(mime);
            let what = wrap(" has no ", shown.as_str(), " in it; it has ");
            let head = tell_entry(*id, what.as_str());
            let carried = list(types);
            wrap(head.as_str(), carried.as_str(), "")
        },
    }
}

/// What is told of a text that is no ticket.
pub open spec fn ticket_text(error: TicketError) -> Seq<char> {
    match error {
        TicketError::NotATicket => "not a yank pairing ticket"@,
        TicketError::Invalid => "invalid pairing ticket"@,
        TicketError::TrailingBytes => "invalid pairing ticket: trailing bytes"@,
    }
}

/// What is told of a text that is no ticket.
pub fn tell_ticket(error: TicketError) -> (told: &'static str)
    ensures
        told@ == ticket_text(error),
{
    match error {
        TicketError::NotATicket => "not a yank pairing ticket",
        TicketError::Invalid => "invalid pairing ticket",
        TicketError::TrailingBytes => "invalid pairing ticket: trailing bytes",
    }
}

/// What is told of a machine that was asked for and is not one.
pub open spec fn peer_text(error: crate::config::MeshError, needle: Seq<char>) -> Seq<char> {
    match error {
        crate::config::MeshError::Unknown => around(
            "no machine named `"@,
            name::sanitized(needle),
            "`"@,
        ),
        crate::config::MeshError::Ambiguous(n) => around(
            around("`"@, name::sanitized(needle), "` matches "@),
            text::decimal_digits(n as nat),
            " machines; use an endpoint id instead"@,
        ),
        other => crate::config::mesh::error_text(other),
    }
}

/// What is told of a machine that was asked for and is not one.
pub fn tell_peer(error: crate::config::MeshError, needle: &str) -> (told: String)
    ensures
        told@ == peer_text(error, needle@),
{
    match error {
        crate::config::MeshError::Unknown => {
            let shown = sanitize(needle);
            wrap("no machine named `", shown.as_str(), "`")
        },
        crate::config::MeshError::Ambiguous(n) => {
            let shown = sanitize(needle);
            let head = wrap("`", shown.as_str(), "` matches ");
            let count = text::decimal(n as u128);
            wrap(head.as_str(), count.as_str(), " machines; use an endpoint id instead")
        },
        other => other.text(),
    }
}

/// What is told of a selection that is not shared, `place` being where the file
/// is that it is not shared for.
pub open spec fn walk_text(error: WalkError, place: Seq<char>) -> Seq<char> {
    match error {
        WalkError::Unnameable => around(place, " has a name that cannot be shared"@, ""@),
        WalkError::TooLarge => "the selection is too large to share"@,
        WalkError::TooManyFiles => "the selection has too many files"@,
        WalkError::SameName => "two of the files would land under the same name"@,
        WalkError::Empty => "the selection names no file"@,
        WalkError::NoRoom { wanted, budget } => around(
            around("the spool has no room for another "@, preview::size_text(wanted), " under its "@),
            preview::size_text(budget),
            " budget in config.toml"@,
        ),
    }
}

/// What is told of a selection that is not shared, `place` being where the file
/// is that it is not shared for.
pub fn tell_walk(error: WalkError, place: &str) -> (told: String)
    ensures
        told@ == walk_text(error, place@),
{
    match error {
        WalkError::Unnameable => wrap(place, " has a name that cannot be shared", ""),
        WalkError::TooLarge => "the selection is too large to share".to_owned(),
        WalkError::TooManyFiles => "the selection has too many files".to_owned(),
        WalkError::SameName => "two of the files would land under the same name".to_owned(),
        WalkError::Empty => "the selection names no file".to_owned(),
        WalkError::NoRoom { wanted, budget } => {
            let another = preview::byte_size(wanted);
            let most = preview::byte_size(budget);
            let head = wrap("the spool has no room for another ", another.as_str(), " under its ");
            wrap(head.as_str(), most.as_str(), " budget in config.toml")
        },
    }
}

/// What is told of a pairing that failed, `reason` being why the connection
/// closed, or what was said in place of what was due.
pub open spec fn pairing_text(error: PairError, reason: Seq<char>) -> Seq<char> {
    match error {
        PairError::Itself => "cannot pair a machine with itself"@,
        PairError::Refused(told) => around("pairing refused: "@, told@, ""@),
        PairError::Unexpected => around(
            "unexpected message from the other machine: "@,
            reason,
            ""@,
        ),
        PairError::Mesh(error) => around(
            "cannot pair: "@,
            crate::config::mesh::error_text(error),
            ""@,
        ),
        PairError::Dropped => around(
            "the connection dropped before pairing completed ("@,
            reason,
            "); check `yank status` on the other machine before trying again"@,
        ),
    }
}

/// What is told of a pairing that failed, `reason` being why the connection
/// closed, or what was said in place of what was due.
pub fn tell_pairing(error: &PairError, reason: &str) -> (told: String)
    ensures
        told@ == pairing_text(*error, reason@),
{
    match error {
        PairError::Itself => "cannot pair a machine with itself".to_owned(),
        PairError::Refused(told) => wrap("pairing refused: ", told.as_str(), ""),
        PairError::Unexpected => wrap("unexpected message from the other machine: ", reason, ""),
        PairError::Mesh(error) => {
            let why = error.text();
            wrap("cannot pair: ", why.as_str(), "")
        },
        PairError::Dropped => wrap(
            "the connection dropped before pairing completed (",
            reason,
            "); check `yank status` on the other machine before trying again",
        ),
    }
}

/// What is handed back to be printed: errors carry file paths and peer names,
/// so they are cleaned up first.
pub open spec fn printable(told: Seq<char>) -> Seq<char> {
    name::sanitized(name::bounded(told))
}

/// What is handed back to be printed.
pub fn clean(told: &str) -> (shown: String)
    ensures
        shown@ == printable(told@),
{
    sanitize_bounded(told)
}

/// Types are listed with a comma and a blank between them, and nothing at either
/// end.
pub proof fn types_are_listed_with_commas(
    first: Seq<Seq<char>>,
    rest: Seq<Seq<char>>,
    only: Seq<char>,
)
    requires
        first.len() > 0,
        rest.len() > 0,
    ensures
        listed(first + rest) == listed(first) + seq![',', ' '] + listed(rest),
        listed(seq![only]) == only,
    decreases rest.len(),
{
    reveal_strlit(", ");
    let all = first + rest;
    assert(all.last() == rest.last());
    if rest.len() == 1 {
        assert(all.drop_last() =~= first);
    } else {
        assert(all.drop_last() =~= first + rest.drop_last());
        types_are_listed_with_commas(first, rest.drop_last(), only);
    }
    assert(listed(all) =~= listed(first) + seq![',', ' '] + listed(rest));
}

} // verus!
