//! `yank peer`: the machines the clipboard is shared with.
//!
//! Pairing runs in the daemon, which holds the identity key; hosting only asks
//! it for a ticket and returns. The daemon finishes the pairing on its own once
//! the other machine redeems it.

use crate::cli::ui;
use crate::daemon::control::protocol::Request;
use crate::daemon::pairing::PAIR_TICKET_SECS;
use crate::net::ticket;
use crate::net::ticket::{PairTicket, TicketError};
use crate::text;
use vstd::prelude::*;

verus! {

/// Budget for redeeming a ticket, in seconds: the whole exchange with the other
/// machine, which may still be waiting for its relay.
pub const JOIN_TIMEOUT: u64 = 120;

/// Manage the machines you share the clipboard with.
#[derive(Debug)]
pub struct PeerArgs {
    pub command: PeerCommand,
}

/// What to do about them.
#[derive(Debug)]
pub enum PeerCommand {
    /// Pair with another machine, redeeming its ticket when there is one.
    Add { ticket: Option<String>, name: Option<String> },
    /// Stop sharing with a machine, named or begun by its id.
    Rm { peer: String },
}

/// What `yank peer` asks of the daemon. A ticket is read here first, so a
/// mangled paste fails at once instead of after a round trip.
pub fn request(args: PeerArgs, hostname: String) -> (request: Result<Request, TicketError>)
    ensures
        match args.command {
            PeerCommand::Rm { peer } => request == Ok::<Request, TicketError>(
                Request::RemovePeer { peer },
            ),
            PeerCommand::Add { ticket: None, name } => request == Ok::<Request, TicketError>(
                Request::PairHost {
                    name: match name {
                        Some(name) => name,
                        None => hostname,
                    },
                },
            ),
            PeerCommand::Add { ticket: Some(ticket), name } => {
                &&& request matches Ok(asked) ==> asked == (Request::PairJoin {
                    ticket,
                    name: match name {
                        Some(name) => name,
                        None => hostname,
                    },
                })
                &&& exists|read: Result<ticket::TicketView, TicketError>| #[trigger]
                    ticket::parses(ticket@, read) && (match read {
                        Ok(_) => request is Ok,
                        Err(error) => request == Err::<Request, TicketError>(error),
                    })
            },
        },
{
    match args.command {
        PeerCommand::Rm { peer } => Ok(Request::RemovePeer { peer }),
        PeerCommand::Add { ticket, name } => {
            let name = match name {
                Some(name) => name,
                None => hostname,
            };
            match ticket {
                None => Ok(Request::PairHost { name }),
                Some(ticket) => {
                    let read = PairTicket::parse(ticket.as_str());
                    assert(ticket::parses(ticket@, ticket::read_as(read)));
                    match read {
                        Ok(_) => Ok(Request::PairJoin { ticket, name }),
                        Err(error) => Err(error),
                    }
                },
            }
        },
    }
}

/// How a ticket is handed over.
pub fn hosted(ticket: &str) -> (lines: Vec<String>)
    ensures
        lines@.len() == 5,
        lines@[0]@ == "Run this on the other machine:"@,
        lines@[1]@.len() == 0,
        lines@[2]@ == "    "@ + ui::painted(ui::Style::Heading, "yank peer add "@ + ticket@),
        lines@[3]@.len() == 0,
        lines@[4]@ == ui::painted(
            ui::Style::Dim,
            "It will see everything you copy. The ticket works once, and expires in "@
                + text::decimal_digits((PAIR_TICKET_SECS / 60) as nat) + " minutes."@,
        ),
{
    let mut lines: Vec<String> = Vec::new();
    lines.push("Run this on the other machine:".to_owned());
    lines.push(String::new());
    let mut command = "yank peer add ".to_owned();
    command.append(ticket);
    let mut line = "    ".to_owned();
    line.append(ui::heading(command.as_str()).as_str());
    lines.push(line);
    lines.push(String::new());
    let mut told =
        "It will see everything you copy. The ticket works once, and expires in ".to_owned();
    told.append(text::decimal((PAIR_TICKET_SECS / 60) as u128).as_str());
    told.append(" minutes.");
    lines.push(ui::dim(told.as_str()));
    lines
}

/// What is said of a pairing.
pub fn paired(name: &str) -> (line: String)
    ensures
        line@ == ui::painted(ui::Style::Good, "Paired with `"@ + name@ + "`"@),
{
    let mut t = "Paired with `".to_owned();
    t.append(name);
    t.append("`");
    ui::good(t.as_str())
}

/// What is said of a machine that was removed.
pub fn removed(endpoint: &str) -> (lines: Vec<String>)
    ensures
        lines@.len() == 2,
        lines@[0]@ == ui::painted(ui::Style::Good, "Removed "@ + endpoint@),
        lines@[1]@ == ui::painted(
            ui::Style::Dim,
            "It will be removed on the other machines as they hear about it."@,
        ),
{
    let mut t = "Removed ".to_owned();
    t.append(endpoint);
    let mut lines: Vec<String> = Vec::new();
    lines.push(ui::good(t.as_str()));
    lines.push(ui::dim("It will be removed on the other machines as they hear about it."));
    lines
}

} // verus!
