//! `yank status`: what the daemon is doing.

use crate::cli::pause;
use crate::cli::ui;
use crate::daemon::control::protocol::{
    ConnectionStatus, HistoryEntry, PeerStatus, Request, Route, Status,
};
use crate::encoding;
use crate::text;
use crate::time::Time;
use vstd::prelude::*;

verus! {

/// Show the machines, the clipboard and the daemon.
#[derive(Clone, Copy, Debug)]
pub struct StatusArgs {}

/// What `yank status` asks of the daemon.
pub fn request(_args: &StatusArgs) -> (request: Request)
    ensures
        request == Request::Status,
{
    Request::Status
}

/// Some lines, for contracts.
pub open spec fn line_views(lines: Seq<String>) -> Seq<Seq<char>> {
    lines.map_values(|line: String| line@)
}

/// One line of contents, set off when it is a secret.
pub open spec fn shown_preview(entry: HistoryEntry) -> Seq<char> {
    if entry.secret {
        ui::painted(ui::Style::Warn, entry.preview@)
    } else {
        entry.preview@
    }
}

/// How long until something is gone.
pub open spec fn shown_expiry(secs: u64) -> Seq<char> {
    ui::painted(ui::Style::Warn, "(gone in "@ + ui::duration_text(secs as nat) + ")"@)
}

/// One line of contents, set off when it is a secret.
pub fn preview_of(entry: &HistoryEntry) -> (t: String)
    ensures
        t@ == shown_preview(*entry),
{
    if entry.secret {
        ui::warn(entry.preview.as_str())
    } else {
        entry.preview.clone()
    }
}

/// How long until something is gone.
pub fn expiry_of(secs: u64) -> (t: String)
    ensures
        t@ == shown_expiry(secs),
{
    let mut t = "(gone in ".to_owned();
    t.append(ui::duration(secs).as_str());
    t.append(")");
    ui::warn(t.as_str())
}

/// The entry currently on the clipboard.
pub open spec fn selection_text(entry: HistoryEntry) -> Seq<char> {
    shown_preview(entry) + (match entry.expires_in_secs {
        Some(secs) => " "@ + shown_expiry(secs),
        None => Seq::empty(),
    }) + " "@ + ui::painted(
        ui::Style::Dim,
        "— "@ + entry.origin@ + ", "@ + ui::duration_text(entry.age_secs as nat) + " ago"@,
    )
}

/// The entry currently on the clipboard.
pub fn selection(entry: &HistoryEntry) -> (t: String)
    ensures
        t@ == selection_text(*entry),
{
    let mut t = preview_of(entry);
    let mut expiry = String::new();
    if let Some(secs) = entry.expires_in_secs {
        expiry = " ".to_owned();
        expiry.append(expiry_of(secs).as_str());
    }
    t.append(expiry.as_str());
    t.append(" ");
    let mut whence = "— ".to_owned();
    whence.append(entry.origin.as_str());
    whence.append(", ");
    whence.append(ui::duration(entry.age_secs).as_str());
    whence.append(" ago");
    t.append(ui::dim(whence.as_str()).as_str());
    t
}

/// How traffic reaches a machine.
pub open spec fn route_text(route: Option<Route>) -> Seq<char> {
    match route {
        Some(Route::Direct { addr, rtt_ms }) => "direct "@ + addr@ + ", "@ + text::decimal_digits(
            rtt_ms as nat,
        ) + "ms"@,
        Some(Route::Relay { url, rtt_ms }) => "relayed "@ + url@ + ", "@ + text::decimal_digits(
            rtt_ms as nat,
        ) + "ms"@,
        None => "connecting a path"@,
    }
}

/// How traffic reaches a machine.
fn routed(route: &Option<Route>) -> (t: String)
    ensures
        t@ == route_text(*route),
{
    match route {
        Some(Route::Direct { addr, rtt_ms }) => {
            let mut t = "direct ".to_owned();
            t.append(addr.as_str());
            t.append(", ");
            t.append(text::decimal(*rtt_ms as u128).as_str());
            t.append("ms");
            t
        },
        Some(Route::Relay { url, rtt_ms }) => {
            let mut t = "relayed ".to_owned();
            t.append(url.as_str());
            t.append(", ");
            t.append(text::decimal(*rtt_ms as u128).as_str());
            t.append("ms");
            t
        },
        None => "connecting a path".to_owned(),
    }
}

/// One machine's connection, in a few words.
pub open spec fn connection_text(connection: ConnectionStatus) -> Seq<char> {
    match connection {
        ConnectionStatus::Connecting => ui::painted(ui::Style::Warn, "connecting"@),
        ConnectionStatus::Backoff { retry_in_secs } => ui::painted(
            ui::Style::Bad,
            "offline, retrying in "@ + ui::duration_text(retry_in_secs as nat),
        ),
        ConnectionStatus::Connected { route, since_secs } => ui::painted(
            ui::Style::Good,
            "connected"@,
        ) + " "@ + ui::painted(
            ui::Style::Dim,
            route_text(route) + ", for "@ + ui::duration_text(since_secs as nat),
        ),
    }
}

/// One machine's connection, in a few words.
pub fn connection(peer: &PeerStatus) -> (t: String)
    ensures
        t@ == connection_text(peer.connection),
{
    match &peer.connection {
        ConnectionStatus::Connecting => ui::warn("connecting"),
        ConnectionStatus::Backoff { retry_in_secs } => {
            let mut t = "offline, retrying in ".to_owned();
            t.append(ui::duration(*retry_in_secs).as_str());
            ui::bad(t.as_str())
        },
        ConnectionStatus::Connected { route, since_secs } => {
            let mut how = routed(route);
            how.append(", for ");
            how.append(ui::duration(*since_secs).as_str());
            let mut t = ui::good("connected");
            t.append(" ");
            t.append(ui::dim(how.as_str()).as_str());
            t
        },
    }
}

/// The names of some machines.
pub open spec fn peer_names(peers: Seq<PeerStatus>) -> Seq<Seq<char>> {
    peers.map_values(|peer: PeerStatus| peer.name@)
}

/// The line of a machine, in a column of names so wide.
pub open spec fn peer_line(peer: PeerStatus, width: nat) -> Seq<char> {
    "  "@ + peer.name@ + ui::blanks(width - peer.name@.len()) + "  "@ + connection_text(
        peer.connection,
    )
}

/// The lines of some machines, or the one that says there are none.
pub open spec fn peer_lines(peers: Seq<PeerStatus>) -> Seq<Seq<char>> {
    if peers.len() == 0 {
        seq![
            "  "@ + ui::painted(
                ui::Style::Dim,
                "none paired yet; run `yank peer add` to add one"@,
            ),
        ]
    } else {
        peers.map_values(|peer: PeerStatus| peer_line(peer, ui::widest(peer_names(peers))))
    }
}

/// What `yank status` prints at a time.
pub open spec fn status_lines(status: Status, now: Time) -> Seq<Seq<char>> {
    seq![
        ui::painted(ui::Style::Heading, "This machine"@) + " "@ + ui::painted(
            ui::Style::Dim,
            encoding::hex(status.endpoint.key.bytes()),
        ),
        "  yank "@ + status.version@ + ", up for "@ + ui::duration_text(status.uptime_secs as nat),
        "  "@ + (match status.clipboard.backend {
            None => ui::painted(ui::Style::Good, "clipboard connected"@),
            Some(reason) => ui::painted(ui::Style::Warn, "clipboard down: "@ + reason@),
        }),
        "  "@ + pause::described(status.clipboard.pause, now),
        Seq::empty(),
        ui::painted(ui::Style::Heading, "Clipboard"@),
        "  "@ + (match status.clipboard.selection {
            Some(entry) => selection_text(entry),
            None => ui::painted(ui::Style::Dim, "empty"@),
        }),
        "  "@ + ui::painted(
            ui::Style::Dim,
            text::decimal_digits(status.clipboard.entries as nat) + " entries shared"@,
        ),
        Seq::empty(),
        ui::painted(ui::Style::Heading, "Machines"@),
    ] + peer_lines(status.peers@)
}

/// A line set in a little.
fn indented(t: &str) -> (line: String)
    ensures
        line@ == "  "@ + t@,
{
    let mut line = "  ".to_owned();
    line.append(t);
    line
}

/// Appends the lines of some machines, or the one that says there are none.
fn add_peers(lines: &mut Vec<String>, peers: &Vec<PeerStatus>)
    ensures
        line_views(final(lines)@) == line_views(old(lines)@) + peer_lines(peers@),
{
    let ghost before = line_views(lines@);
    if peers.len() == 0 {
        let line = ui::dim("none paired yet; run `yank peer add` to add one");
        lines.push(indented(line.as_str()));
        assert(line_views(lines@) =~= before + peer_lines(peers@));
        return;
    }
    let mut names: Vec<&str> = Vec::new();
    let mut i: usize = 0;
    while i < peers.len()
        invariant
            i <= peers.len(),
            names@.len() == i,
            forall|j: int| 0 <= j < i ==> (#[trigger] names@[j])@ == peers@[j].name@,
        decreases peers.len() - i,
    {
        names.push(peers[i].name.as_str());
        i += 1;
    }
    assert(ui::texts(names@) =~= peer_names(peers@));
    let width: usize = ui::width(names.as_slice());
    let ghost all = peer_lines(peers@);
    i = 0;
    assert(line_views(lines@) =~= before + all.take(0));
    while i < peers.len()
        invariant
            i <= peers.len(),
            peers@.len() > 0,
            all == peer_lines(peers@),
            width == ui::widest(peer_names(peers@)),
            line_views(lines@) == before + all.take(i as int),
        decreases peers.len() - i,
    {
        let mut line = indented(peers[i].name.as_str());
        ui::fill(&mut line, peers[i].name.as_str(), width);
        line.append("  ");
        line.append(connection(&peers[i]).as_str());
        assert(line@ == all[i as int]);
        let ghost so_far = line_views(lines@);
        lines.push(line);
        assert(line_views(lines@) =~= so_far.push(all[i as int]));
        i += 1;
        assert(before + all.take(i as int) =~= so_far.push(all[i - 1]));
    }
    assert(all.take(i as int) =~= all);
}

/// What `yank status` prints.
pub fn lines(status: &Status, now: Time) -> (lines: Vec<String>)
    ensures
        line_views(lines@) == status_lines(*status, now),
{
    let mut lines: Vec<String> = Vec::new();
    let mut first = ui::heading("This machine");
    first.append(" ");
    first.append(ui::dim(status.endpoint.text().as_str()).as_str());
    lines.push(first);
    let mut running = "  yank ".to_owned();
    running.append(status.version.as_str());
    running.append(", up for ");
    running.append(ui::duration(status.uptime_secs).as_str());
    lines.push(running);
    let backend = match &status.clipboard.backend {
        None => ui::good("clipboard connected"),
        Some(reason) => {
            let mut t = "clipboard down: ".to_owned();
            t.append(reason.as_str());
            ui::warn(t.as_str())
        },
    };
    lines.push(indented(backend.as_str()));
    lines.push(indented(pause::describe_at(status.clipboard.pause, now).as_str()));
    lines.push(String::new());
    lines.push(ui::heading("Clipboard"));
    let held = match &status.clipboard.selection {
        Some(entry) => selection(entry),
        None => ui::dim("empty"),
    };
    lines.push(indented(held.as_str()));
    let mut shared = text::decimal(status.clipboard.entries as u128);
    shared.append(" entries shared");
    lines.push(indented(ui::dim(shared.as_str()).as_str()));
    lines.push(String::new());
    lines.push(ui::heading("Machines"));
    let ghost head = line_views(lines@);
    assert(head.len() == 10);
    assert(head + peer_lines(status.peers@) =~= status_lines(*status, now));
    add_peers(&mut lines, &status.peers);
    lines
}

/// Every machine has its line in the status, in their order, which begins with
/// its name and ends with how it is reached; where there is none, one line says
/// so.
pub proof fn every_machine_has_its_line(status: Status, now: Time, i: int)
    requires
        0 <= i < status.peers@.len(),
    ensures
        ({
            let lines = status_lines(status, now);
            let peer = status.peers@[i];
            let line = lines[10 + i];
            &&& lines.len() == 10 + status.peers@.len()
            &&& line.subrange(2, 2int + peer.name@.len()) == peer.name@
            &&& connection_text(peer.connection).is_suffix_of(line)
            &&& line.len() - connection_text(peer.connection).len() == 4 + ui::widest(
                peer_names(status.peers@),
            )
        }),
{
    reveal_strlit("  ");
    let lines = status_lines(status, now);
    let peer = status.peers@[i];
    let names = peer_names(status.peers@);
    let line = lines[10 + i];
    assert(line == peer_line(peer, ui::widest(names)));
    assert(names[i] == peer.name@);
    ui::columns_line_up(names, i);
    let told = connection_text(peer.connection);
    assert(line.subrange(2, 2int + peer.name@.len()) =~= peer.name@);
    assert(line.skip(line.len() - told.len()) =~= told);
}

} // verus!
