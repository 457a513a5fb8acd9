//! Pairing, from the daemon's side.
//!
//! The daemon is the only holder of the identity key, so pairing happens here
//! and the CLI drives it over the control socket. The pairing protocol is
//! always served; what gates it is the *ticket*. At most one is valid at a
//! time, hosting again revokes the previous one, and redeeming is atomic: the
//! ticket is consumed as the peer is saved, so a revoked, expired or
//! already-used ticket can never register anything.

use crate::config::mesh::{MeshError, MeshState};
use crate::daemon::store;
use crate::daemon::store::MeshStore;
use crate::net::pair::PairedPeer;
use crate::net::ticket::{PairTicket, TicketView};
use crate::time::{Span, Time};
use vstd::prelude::*;

verus! {

/// How long an issued pairing ticket stays redeemable, in seconds.
pub const PAIR_TICKET_SECS: u64 = 180;

/// Concurrent inbound exchanges. The pairing protocol accepts connections from
/// machines we know nothing about, so surplus is dropped, not queued.
pub const MAX_EXCHANGES: usize = 4;

/// A ticket handed to the user, redeemable until it is revoked or expires.
struct IssuedTicket {
    ticket: PairTicket,
    expires: Time,
    /// The name this machine announces to whoever redeems it.
    local_name: String,
}

/// The daemon's pairing state: the outstanding ticket, if any, and the
/// exchanges under way.
pub struct Pairing {
    issued: Option<IssuedTicket>,
    exchanges: usize,
}

/// A ticket handed to the user, for contracts.
#[verifier::ext_equal]
pub struct IssuedView {
    pub ticket: TicketView,
    pub expires: Time,
    pub local_name: Seq<char>,
}

/// The daemon's pairing state, for contracts.
#[verifier::ext_equal]
pub struct PairingView {
    pub issued: Option<IssuedView>,
    pub exchanges: usize,
}

impl View for Pairing {
    type V = PairingView;

    closed spec fn view(&self) -> PairingView {
        PairingView {
            issued: match self.issued {
                Some(held) => Some(
                    IssuedView {
                        ticket: held.ticket@,
                        expires: held.expires,
                        local_name: held.local_name@,
                    },
                ),
                None => None,
            },
            exchanges: self.exchanges,
        }
    }
}

impl PairingView {
    /// Whether a ticket can be redeemed at some time.
    pub open spec fn redeems(self, ticket: TicketView, now: Time) -> bool {
        self.issued matches Some(held) && held.ticket.secret == ticket.secret && now.nanos
            < held.expires.nanos
    }

    /// The state once an expired ticket is dropped.
    pub open spec fn refreshed(self, now: Time) -> PairingView {
        match self.issued {
            Some(held) => if held.expires.nanos <= now.nanos {
                PairingView { issued: None, ..self }
            } else {
                self
            },
            None => self,
        }
    }
}

/// How a connection on the pairing protocol is answered.
pub enum Inbound {
    /// It is one too many: it is closed.
    Busy,
    /// No ticket is outstanding: it is told so. That is an exchange too, under
    /// way until it has [`Pairing::ended`], or machines nobody knows could be
    /// turned away by the hundred at once.
    NoTicket,
    /// It may try, against this ticket, and is told this name. The exchange is
    /// under way until it has [`Pairing::ended`].
    Exchange { ticket: PairTicket, local_name: String },
}

/// What becomes of a machine that completed the exchange.
pub enum Settlement {
    /// The ticket is no longer valid: the machine is not registered.
    Cancelled,
    /// The machine is registered once this is saved, and is told then.
    Save(MeshState),
    /// The machine was registered already, and is told so.
    Confirm,
    /// The machine cannot be registered.
    Failed(MeshError),
}

impl Pairing {
    /// No ticket outstanding, and no exchange under way.
    pub fn new() -> (pairing: Self)
        ensures
            pairing@ == (PairingView { issued: None, exchanges: 0 }),
    {
        Pairing { issued: None, exchanges: 0 }
    }

    /// Revokes the outstanding ticket, returning whether there was one. Hosting
    /// does this before anything else: someone re-hosting to kill a leaked
    /// ticket must not need the network for the old one to die.
    pub fn revoke(&mut self) -> (revoked: bool)
        ensures
            revoked == (old(self)@.issued is Some),
            final(self)@ == (PairingView { issued: None, ..old(self)@ }),
    {
        let revoked: bool = self.issued.is_some();
        self.issued = None;
        revoked
    }

    /// Puts a fresh ticket out, in place of any outstanding one.
    pub fn issue(&mut self, ticket: &PairTicket, local_name: String, now: Time)
        ensures
            final(self)@ == (PairingView {
                issued: Some(
                    IssuedView {
                        ticket: ticket@,
                        expires: now.later(Span::of_secs(PAIR_TICKET_SECS)),
                        local_name: local_name@,
                    },
                ),
                ..old(self)@
            }),
    {
        self.issued = Some(
            IssuedTicket {
                ticket: ticket.clone(),
                expires: now.plus(Span::from_secs(PAIR_TICKET_SECS)),
                local_name,
            },
        );
    }

    /// The outstanding ticket and the name to announce, dropping the ticket
    /// when it turns out to have expired.
    pub fn outstanding(&mut self, now: Time) -> (found: Option<(PairTicket, String)>)
        ensures
            final(self)@ == old(self)@.refreshed(now),
            match final(self)@.issued {
                Some(held) => {
                    &&& found matches Some((ticket, name))
                    &&& ticket@ == held.ticket
                    &&& name@ == held.local_name
                },
                None => found is None,
            },
    {
        let expired: bool = match &self.issued {
            Some(held) => held.expires.nanos <= now.nanos,
            None => false,
        };
        if expired {
            self.issued = None;
        }
        match &self.issued {
            Some(held) => Some((held.ticket.clone(), held.local_name.clone())),
            None => None,
        }
    }

    /// Decides how a connection on the pairing protocol is answered.
    ///
    /// Refused outright unless a ticket is outstanding. A failed attempt leaves
    /// the ticket valid, since the joiner was told why and can try again; only
    /// a completed one redeems it.
    pub fn begin(&mut self, now: Time) -> (inbound: Inbound)
        ensures
            if old(self)@.exchanges >= MAX_EXCHANGES {
                inbound is Busy && final(self)@ == old(self)@
            } else {
                let fresh = old(self)@.refreshed(now);
                &&& final(self)@ == (PairingView {
                    exchanges: (fresh.exchanges + 1) as usize,
                    ..fresh
                })
                &&& match fresh.issued {
                    Some(held) => {
                        &&& inbound matches Inbound::Exchange { ticket, local_name }
                        &&& ticket@ == held.ticket
                        &&& local_name@ == held.local_name
                    },
                    None => inbound is NoTicket,
                }
            },
    {
        if self.exchanges >= MAX_EXCHANGES {
            return Inbound::Busy;
        }
        self.exchanges = self.exchanges + 1;
        match self.outstanding(now) {
            Some((ticket, local_name)) => Inbound::Exchange { ticket, local_name },
            None => Inbound::NoTicket,
        }
    }

    /// An exchange has ended, one way or another.
    pub fn ended(&mut self)
        requires
            old(self)@.exchanges > 0,
        ensures
            final(self)@ == (PairingView {
                exchanges: (old(self)@.exchanges - 1) as usize,
                ..old(self)@
            }),
    {
        self.exchanges = self.exchanges - 1;
    }

    /// Redeems a ticket, which takes it: a ticket is redeemed at most once.
    pub fn redeem(&mut self, ticket: &PairTicket, now: Time) -> (redeemed: bool)
        ensures
            redeemed == old(self)@.redeems(ticket@, now),
            final(self)@ == (if redeemed {
                PairingView { issued: None, ..old(self)@ }
            } else {
                old(self)@
            }),
    {
        let live: bool = match &self.issued {
            Some(held) => held.ticket.matches(ticket) && now.nanos < held.expires.nanos,
            None => false,
        };
        if live {
            self.issued = None;
        }
        live
    }

    /// Decides what becomes of a machine that completed the exchange.
    ///
    /// Consuming the ticket and registering the machine are one step, so a
    /// ticket revoked mid-exchange cannot still register a machine.
    pub fn settle(
        &mut self,
        ticket: &PairTicket,
        peer: &PairedPeer,
        mesh: &MeshStore,
        now: Time,
    ) -> (settlement: Settlement)
        requires
            mesh.wf(),
        ensures
            if old(self)@.redeems(ticket@, now) {
                &&& final(self)@ == (PairingView { issued: None, ..old(self)@ })
                &&& match store::with_paired(mesh@, peer.name@, peer.endpoint) {
                    Err(error) => settlement == Settlement::Failed(error),
                    Ok(next) => if next == mesh@ {
                        settlement is Confirm
                    } else {
                        settlement matches Settlement::Save(state) && state.wf() && state@ == next
                    },
                }
            } else {
                settlement is Cancelled && final(self)@ == old(self)@
            },
    {
        if !self.redeem(ticket, now) {
            return Settlement::Cancelled;
        }
        match mesh.add_paired(peer) {
            Ok(Some(state)) => Settlement::Save(state),
            Ok(None) => Settlement::Confirm,
            Err(error) => Settlement::Failed(error),
        }
    }
}

/// A redeemed ticket is never redeemed again, whatever comes: only issuing
/// another puts a ticket out.
pub proof fn a_ticket_is_redeemed_once(pairing: PairingView, ticket: TicketView, now: Time, later: Time)
    requires
        pairing.redeems(ticket, now),
    ensures
        !(PairingView { issued: None, ..pairing }).redeems(ticket, later),
        !(PairingView { issued: None, ..pairing }).refreshed(now).redeems(ticket, later),
{
}

/// An expired ticket is not redeemed, and neither is one that was revoked by
/// issuing another.
pub proof fn a_dead_ticket_registers_nothing(
    pairing: PairingView,
    held: IssuedView,
    ticket: TicketView,
    now: Time,
)
    requires
        pairing.issued == Some(held),
        held.expires.nanos <= now.nanos || held.ticket.secret != ticket.secret,
    ensures
        !pairing.redeems(ticket, now),
{
}

/// A ticket is redeemed by whoever shows its secret before it expires, and by no
/// one else; and it stays out until then.
pub proof fn a_ticket_is_good_until_it_expires(
    pairing: PairingView,
    held: IssuedView,
    ticket: TicketView,
    now: Time,
)
    requires
        pairing.issued == Some(held),
    ensures
        pairing.redeems(ticket, now) <==> ticket.secret == held.ticket.secret && now.nanos
            < held.expires.nanos,
        now.nanos < held.expires.nanos ==> pairing.refreshed(now) == pairing,
        now.nanos >= held.expires.nanos ==> pairing.refreshed(now).issued is None
            && pairing.refreshed(now).exchanges == pairing.exchanges,
{
}


} // verus!
