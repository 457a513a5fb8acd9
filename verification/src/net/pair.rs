//! Pairing: how a machine joins the mesh.
//!
//! Pairing runs under its own protocol name because it is the one protocol
//! that accepts a connection from a machine we have never seen. What
//! authorizes it is not the peer list but a one-time secret, carried out of
//! band in a ticket. The identities themselves are authenticated by the
//! handshake of the connection, so the exchange only has to carry the
//! human-readable names.
//!
//! Over a single stream both ways:
//!
//! 1. joiner → host: `Hello`, the ticket secret and its name
//! 2. host → joiner: `Welcome` with its own name, or `Reject`
//! 3. joiner → host: `Done`, or `Reject`
//!
//! Each side checks the other against its own mesh state before answering, so
//! neither ends up holding a peer the other refused. The host saves the peer
//! *before* confirming with the `paired` close, so it can never confirm one it
//! failed to save; the joiner saves after seeing that close. A failure in that
//! last step leaves the host paired one-sidedly, which pairing again repairs:
//! registering a machine already registered is a no-op, since the handshake
//! proves the identity either way.

use crate::config::mesh;
use crate::config::mesh::{MeshError, MeshState, PeerView};
use crate::config::name;
use crate::config::name::sanitize_bounded;
use crate::log::EndpointId;
use crate::net::ticket::{PairSecret, PairTicket, TicketView};
use vstd::prelude::*;

verus! {

/// The name of the pairing protocol.
pub const ALPN: &'static str = "yank/pair/0";

/// Cap on a pairing message.
pub const MAX_MESSAGE_SIZE: u32 = 4096;

/// Close reason that confirms a pairing to the joiner.
pub const PAIRED_REASON: &'static str = "paired";

/// What an attempt without the right secret is told.
pub const INVALID_TICKET: &'static str = "invalid pairing ticket";

/// What an attempt is told while no ticket is outstanding.
pub const NO_PAIRING: &'static str = "no pairing in progress on this machine";

/// A message of the exchange. Each is sent by one side only; they share an
/// enum because they share a stream.
pub enum Message {
    /// The joiner's opening request, proving it holds the ticket.
    Hello { secret: PairSecret, name: String },
    /// The host's acceptance, announcing its own name.
    Welcome { name: String },
    /// The joiner's confirmation.
    Done,
    /// A refusal, from either side.
    Reject { reason: String },
}

/// A message of the exchange, for contracts.
pub enum MessageView {
    Hello { secret: Seq<u8>, name: Seq<char> },
    Welcome { name: Seq<char> },
    Done,
    Reject { reason: Seq<char> },
}

impl View for Message {
    type V = MessageView;

    open spec fn view(&self) -> MessageView {
        match *self {
            Message::Hello { secret, name } => MessageView::Hello {
                secret: secret.bytes@,
                name: name@,
            },
            Message::Welcome { name } => MessageView::Welcome { name: name@ },
            Message::Done => MessageView::Done,
            Message::Reject { reason } => MessageView::Reject { reason: reason@ },
        }
    }
}

/// The machine a successful pairing registers.
#[derive(Debug)]
pub struct PairedPeer {
    /// The name it announced, or the one it already has here.
    pub name: String,
    /// Its identity, authenticated by the connection handshake.
    pub endpoint: EndpointId,
}

/// What hosting one pairing attempt produced.
#[derive(Debug)]
pub enum Outcome {
    /// The exchange completed. The peer is to be saved, and then the joiner to
    /// be told.
    Paired(PairedPeer),
    /// The attempt failed without needing the user (a wrong ticket, connection
    /// trouble); the ticket stays redeemable.
    Dismissed,
}

/// Why a pairing failed.
#[derive(Debug)]
pub enum PairError {
    /// A machine cannot be paired with itself.
    Itself,
    /// The other machine refused, for this reason.
    Refused(String),
    /// The other machine sent something else than what was due.
    Unexpected,
    /// We refused the other machine, and told it why.
    Mesh(MeshError),
    /// The connection dropped before the pairing completed: the other machine
    /// may or may not have saved us.
    Dropped,
}

/// The name to register for an authenticated machine, which announced itself
/// under a name. A machine already known keeps the name it has; a new one is
/// checked against the mesh.
pub open spec fn resolved(
    peers: Map<EndpointId, PeerView>,
    announced: Seq<char>,
    id: EndpointId,
) -> Result<Seq<char>, MeshError> {
    if mesh::alive(peers, id) {
        Ok(peers[id].name->0)
    } else {
        match mesh::new_peer_refusal(peers, announced, id) {
            Some(error) => Err(error),
            None => Ok(announced),
        }
    }
}

/// Decides the name to register for an authenticated machine, which announced
/// itself under a name.
///
/// A machine we already know keeps the name we have for it. A new one is
/// checked against the mesh state.
pub fn resolve_peer_name(announced: String, id: &EndpointId, state: &MeshState) -> (result: Result<
    String,
    MeshError,
>)
    requires
        state.wf(),
    ensures
        match resolved(state@, announced@, *id) {
            Ok(name) => result matches Ok(chosen) && chosen@ == name,
            Err(error) => result == Err::<String, MeshError>(error),
        },
{
    match state.peer_name(id) {
        Some(existing) => {
            return Ok(existing.to_owned());
        },
        None => {},
    }
    match state.validate_new_peer(announced.as_str(), id) {
        Ok(_) => Ok(announced),
        Err(error) => Err(error),
    }
}

/// How an attempt to pair begins.
pub enum Opening {
    /// The other machine opened its stream and sent this.
    Said(Message),
    /// It opened its stream and sent nothing that can be read.
    Unreadable,
    /// It opened no stream.
    NoStream,
    /// It let the time for that pass.
    TimedOut,
}

/// How the host answers an attempt to pair.
#[derive(Debug)]
pub enum Greeting {
    /// Not at all: the connection is gone.
    Dismiss,
    /// By closing the connection.
    Close,
    /// By turning it away: a caller that does not speak the protocol, or holds
    /// the wrong secret, does not end the host's wait.
    TurnAway,
    /// By telling it why it cannot join.
    Refuse(MeshError),
    /// By welcoming it.
    Welcome(PairedPeer),
}

/// How the host answers an attempt to pair, for contracts.
pub enum GreetingView {
    Dismiss,
    Close,
    TurnAway,
    Refuse(MeshError),
    Welcome { name: Seq<char>, endpoint: EndpointId },
}

impl View for Greeting {
    type V = GreetingView;

    open spec fn view(&self) -> GreetingView {
        match *self {
            Greeting::Dismiss => GreetingView::Dismiss,
            Greeting::Close => GreetingView::Close,
            Greeting::TurnAway => GreetingView::TurnAway,
            Greeting::Refuse(error) => GreetingView::Refuse(error),
            Greeting::Welcome(peer) => GreetingView::Welcome {
                name: peer.name@,
                endpoint: peer.endpoint,
            },
        }
    }
}

/// How the host answers what the other machine said first.
pub open spec fn answer_to(
    said: MessageView,
    ticket: TicketView,
    remote: EndpointId,
    peers: Map<EndpointId, PeerView>,
) -> GreetingView {
    match said {
        MessageView::Hello { secret, name } => if secret == ticket.secret {
            match resolved(peers, name, remote) {
                Ok(name) => GreetingView::Welcome { name, endpoint: remote },
                Err(error) => GreetingView::Refuse(error),
            }
        } else {
            GreetingView::TurnAway
        },
        _ => GreetingView::TurnAway,
    }
}

/// Decides how the host answers an attempt to pair with `ticket` outstanding.
pub fn greet(
    opening: Opening,
    ticket: &PairTicket,
    remote: EndpointId,
    state: &MeshState,
) -> (greeting: Greeting)
    requires
        state.wf(),
    ensures
        greeting@ == (match opening {
            Opening::NoStream => GreetingView::Dismiss,
            Opening::TimedOut => GreetingView::Close,
            Opening::Unreadable => GreetingView::TurnAway,
            Opening::Said(message) => answer_to(message@, ticket@, remote, state@),
        }),
{
    let message = match opening {
        Opening::NoStream => {
            return Greeting::Dismiss;
        },
        Opening::TimedOut => {
            return Greeting::Close;
        },
        Opening::Unreadable => {
            return Greeting::TurnAway;
        },
        Opening::Said(message) => message,
    };
    match message {
        Message::Hello { secret, name } => {
            if !ticket.secret.verify(&secret) {
                return Greeting::TurnAway;
            }
            match resolve_peer_name(name, &remote, state) {
                Ok(name) => Greeting::Welcome(PairedPeer { name, endpoint: remote }),
                Err(error) => Greeting::Refuse(error),
            }
        },
        _ => Greeting::TurnAway,
    }
}

/// What the host sends with a greeting, under its own name.
pub open spec fn spoken(greeting: GreetingView, local_name: Seq<char>) -> Option<MessageView> {
    match greeting {
        GreetingView::Dismiss => None,
        GreetingView::Close => None,
        GreetingView::TurnAway => Some(MessageView::Reject { reason: INVALID_TICKET@ }),
        GreetingView::Refuse(error) => Some(MessageView::Reject { reason: mesh::error_text(error) }),
        GreetingView::Welcome { .. } => Some(MessageView::Welcome { name: local_name }),
    }
}

/// A message there may be.
pub open spec fn message_view(message: Option<Message>) -> Option<MessageView> {
    match message {
        Some(message) => Some(message@),
        None => None,
    }
}

impl Greeting {
    /// What the host sends with its greeting, announcing its own name.
    pub fn message(&self, local_name: &str) -> (message: Option<Message>)
        ensures
            message_view(message) == spoken(self@, local_name@),
    {
        match self {
            Greeting::Dismiss => None,
            Greeting::Close => None,
            Greeting::TurnAway => Some(Message::Reject { reason: INVALID_TICKET.to_owned() }),
            Greeting::Refuse(error) => Some(Message::Reject { reason: error.text() }),
            Greeting::Welcome(_) => Some(Message::Welcome { name: local_name.to_owned() }),
        }
    }
}

/// What became of a welcome.
pub enum Reply {
    /// It could not be sent.
    NotSent,
    /// The connection died before the answer.
    Lost,
    /// The other machine answered this.
    Said(Message),
}

/// Concludes the host's side of an exchange, once a machine was welcomed.
///
/// An error means the ticket holder's own attempt failed. When the connection
/// dies the attempt is dismissed instead, so that the joiner can retry with
/// the same ticket rather than burning it.
pub fn conclude(peer: PairedPeer, reply: Reply) -> (result: Result<Outcome, PairError>)
    ensures
        match reply {
            Reply::NotSent => result == Ok::<Outcome, PairError>(Outcome::Dismissed),
            Reply::Lost => result == Ok::<Outcome, PairError>(Outcome::Dismissed),
            Reply::Said(message) => match message@ {
                MessageView::Done => result == Ok::<Outcome, PairError>(Outcome::Paired(peer)),
                MessageView::Reject { reason } => {
                    &&& result matches Err(PairError::Refused(told))
                    &&& told@ == name::sanitized(name::bounded(reason))
                },
                _ => result == Err::<Outcome, PairError>(PairError::Unexpected),
            },
        },
{
    let message = match reply {
        Reply::NotSent => {
            return Ok(Outcome::Dismissed);
        },
        Reply::Lost => {
            return Ok(Outcome::Dismissed);
        },
        Reply::Said(message) => message,
    };
    match message {
        Message::Done => Ok(Outcome::Paired(peer)),
        Message::Reject { reason } => Err(PairError::Refused(sanitize_bounded(reason.as_str()))),
        _ => Err(PairError::Unexpected),
    }
}

/// What the joiner opens the exchange with: the secret of the ticket and its
/// own name. A machine cannot be paired with itself.
pub fn hello(ticket: &PairTicket, local: EndpointId, local_name: &str) -> (result: Result<
    Message,
    PairError,
>)
    ensures
        if ticket@.host == local {
            result == Err::<Message, PairError>(PairError::Itself)
        } else {
            result matches Ok(message) && message@ == (MessageView::Hello {
                secret: ticket@.secret,
                name: local_name@,
            })
        },
{
    if ticket.host == local {
        return Err(PairError::Itself);
    }
    Ok(Message::Hello { secret: ticket.secret.copy(), name: local_name.to_owned() })
}

/// What the joiner does about the host's answer.
#[derive(Debug)]
pub enum Joining {
    /// Confirms, and waits for the host to have saved us.
    Confirm(PairedPeer),
    /// Tells the host why it cannot be paired with.
    Refuse(MeshError),
    /// Closes the connection: the host refused.
    Refused(PairError),
    /// Gives up.
    Unexpected,
}

/// What the joiner does about the host's answer, for contracts.
pub enum JoiningView {
    Confirm { name: Seq<char>, endpoint: EndpointId },
    Refuse(MeshError),
    Refused { reason: Seq<char> },
    Unexpected,
}

/// What the joiner does about the host's answer.
pub open spec fn joining(
    answer: MessageView,
    host: EndpointId,
    peers: Map<EndpointId, PeerView>,
) -> JoiningView {
    match answer {
        MessageView::Welcome { name } => match resolved(peers, name, host) {
            Ok(name) => JoiningView::Confirm { name, endpoint: host },
            Err(error) => JoiningView::Refuse(error),
        },
        MessageView::Reject { reason } => JoiningView::Refused {
            reason: name::sanitized(name::bounded(reason)),
        },
        _ => JoiningView::Unexpected,
    }
}

impl View for Joining {
    type V = JoiningView;

    open spec fn view(&self) -> JoiningView {
        match *self {
            Joining::Confirm(peer) => JoiningView::Confirm {
                name: peer.name@,
                endpoint: peer.endpoint,
            },
            Joining::Refuse(error) => JoiningView::Refuse(error),
            Joining::Refused(PairError::Refused(reason)) => JoiningView::Refused {
                reason: reason@,
            },
            _ => JoiningView::Unexpected,
        }
    }
}

/// Decides what the joiner does about the host's answer.
pub fn answered(answer: Message, host: EndpointId, state: &MeshState) -> (next: Joining)
    requires
        state.wf(),
    ensures
        next@ == joining(answer@, host, state@),
        !(next matches Joining::Refused(error) && !(error is Refused)),
{
    match answer {
        Message::Welcome { name } => match resolve_peer_name(name, &host, state) {
            Ok(name) => Joining::Confirm(PairedPeer { name, endpoint: host }),
            Err(error) => Joining::Refuse(error),
        },
        Message::Reject { reason } => {
            Joining::Refused(PairError::Refused(sanitize_bounded(reason.as_str())))
        },
        _ => Joining::Unexpected,
    }
}

/// Concludes the joiner's side of an exchange. Any close other than the
/// confirmation means the host did not save us.
///
/// `close` is the code and the reason the host closed the connection with,
/// when it was the host that closed it.
pub fn closed(peer: PairedPeer, close: Option<(u64, Vec<u8>)>) -> (result: Result<
    PairedPeer,
    PairError,
>)
    ensures
        if close matches Some((code, reason)) && code == 0 && reason@ == vstd::utf8::encode_utf8(
            PAIRED_REASON@,
        ) {
            result == Ok::<PairedPeer, PairError>(peer)
        } else {
            result == Err::<PairedPeer, PairError>(PairError::Dropped)
        },
{
    match close {
        Some((code, reason)) => if code == 0 && same_bytes(
            reason.as_slice(),
            PAIRED_REASON.as_bytes(),
        ) {
            Ok(peer)
        } else {
            Err(PairError::Dropped)
        },
        None => Err(PairError::Dropped),
    }
}

/// Whether two byte strings are the same.
pub fn same_bytes(a: &[u8], b: &[u8]) -> (r: bool)
    ensures
        r == (a@ == b@),
{
    if a.len() != b.len() {
        return false;
    }
    let mut i: usize = 0;
    while i < a.len()
        invariant
            i <= a.len(),
            a@.len() == b@.len(),
            forall|j: int| 0 <= j < i ==> #[trigger] a@[j] == b@[j],
        decreases a.len() - i,
    {
        if a[i] != b[i] {
            return false;
        }
        i += 1;
    }
    assert(a@ =~= b@);
    true
}

/// A pairing is agreed on by both machines: the host welcomes the joiner and
/// the joiner confirms exactly when the joiner holds the secret of the ticket
/// and each takes the other under the name it announced. Each then registers
/// the other's authenticated identity.
pub proof fn a_pairing_is_agreed_by_both(
    ticket: TicketView,
    secret: Seq<u8>,
    host: EndpointId,
    host_name: Seq<char>,
    host_peers: Map<EndpointId, PeerView>,
    joiner: EndpointId,
    joiner_name: Seq<char>,
    joiner_peers: Map<EndpointId, PeerView>,
)
    ensures
        ({
            let greeting = answer_to(
                MessageView::Hello { secret, name: joiner_name },
                ticket,
                joiner,
                host_peers,
            );
            let answer = spoken(greeting, host_name)->0;
            let next = joining(answer, host, joiner_peers);
            let agreed = secret == ticket.secret && resolved(host_peers, joiner_name, joiner) is Ok
                && resolved(joiner_peers, host_name, host) is Ok;
            &&& spoken(greeting, host_name) is Some
            &&& (greeting is Welcome && next is Confirm) == agreed
            &&& next is Confirm ==> greeting is Welcome
            &&& agreed ==> greeting == (GreetingView::Welcome {
                name: resolved(host_peers, joiner_name, joiner)->Ok_0,
                endpoint: joiner,
            })
            &&& agreed ==> next == (JoiningView::Confirm {
                name: resolved(joiner_peers, host_name, host)->Ok_0,
                endpoint: host,
            })
        }),
{
}

/// An attempt without the secret of the ticket is told the same, whoever makes
/// it and whatever the mesh holds.
pub proof fn a_wrong_secret_is_turned_away(
    ticket: TicketView,
    secret: Seq<u8>,
    name: Seq<char>,
    remote: EndpointId,
    peers: Map<EndpointId, PeerView>,
    local_name: Seq<char>,
)
    requires
        secret != ticket.secret,
    ensures
        spoken(
            answer_to(MessageView::Hello { secret, name }, ticket, remote, peers),
            local_name,
        ) == Some(MessageView::Reject { reason: INVALID_TICKET@ }),
{
}

/// A machine that shows the secret of the ticket is welcomed, under the name it
/// announces when that is one and there is room for it, and under the name it
/// has when it is in the mesh already; a host that welcomes is confirmed in the
/// same way. One that shows another secret, or says anything else first, is
/// turned away.
pub proof fn a_machine_that_shows_the_secret_is_welcomed(
    ticket: TicketView,
    name: Seq<char>,
    remote: EndpointId,
    peers: Map<EndpointId, PeerView>,
    said: MessageView,
)
    ensures
        ({
            let hello = MessageView::Hello { secret: ticket.secret, name };
            let known = peers.contains_key(remote) && peers[remote].name is Some;
            let room = peers.contains_key(remote) || peers.len() < 64;
            &&& known ==> answer_to(hello, ticket, remote, peers) == (GreetingView::Welcome {
                name: peers[remote].name->0,
                endpoint: remote,
            })
            &&& !known && mesh::proper_name(name) && room ==> answer_to(
                hello,
                ticket,
                remote,
                peers,
            ) == (GreetingView::Welcome { name, endpoint: remote })
            &&& !known && !(mesh::proper_name(name) && room) ==> answer_to(
                hello,
                ticket,
                remote,
                peers,
            ) is Refuse
            &&& !(said matches MessageView::Hello { secret, name: announced } && secret
                == ticket.secret) ==> answer_to(said, ticket, remote, peers) is TurnAway
            &&& known ==> joining(MessageView::Welcome { name }, remote, peers)
                == (JoiningView::Confirm { name: peers[remote].name->0, endpoint: remote })
            &&& !known && mesh::proper_name(name) && room ==> joining(
                MessageView::Welcome { name },
                remote,
                peers,
            ) == (JoiningView::Confirm { name, endpoint: remote })
        }),
{
    mesh::who_can_be_added(peers, name, remote);
}

/// A host says its own name to a machine it welcomes, and the reason to one it
/// refuses; one that just goes is told nothing.
pub proof fn a_host_says_who_it_is(greeting: GreetingView, local_name: Seq<char>)
    ensures
        greeting is Welcome ==> spoken(greeting, local_name) == Some(
            MessageView::Welcome { name: local_name },
        ),
        greeting matches GreetingView::Refuse(error) ==> spoken(greeting, local_name) == Some(
            MessageView::Reject { reason: mesh::error_text(error) },
        ),
        greeting is Dismiss || greeting is Close <==> spoken(greeting, local_name) is None,
{
}


} // verus!
