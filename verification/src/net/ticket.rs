//! Pairing tickets: what the host prints and the joiner redeems.
//!
//! A ticket carries everything needed to reach the host directly, bypassing
//! discovery, which may not have propagated yet, plus the one-time secret that
//! authorizes the join. The user copies it from one machine to the other.

use crate::clip::preview;
use crate::encoding;
use crate::encoding::{base32_decode, base32_encode};
use crate::files::uri::append;
use crate::log::EndpointId;
use crate::text;
use crate::text::chars_of;
use crate::word::Word;
use vstd::prelude::*;

verus! {

/// Prefix of a serialized ticket, so a mangled paste is caught before it is
/// decoded.
pub const TICKET_PREFIX: &'static str = "yank-pair-";

/// How many bytes the one-time secret has.
pub const SECRET_BYTES: usize = 16;

/// The one-time secret authorizing a join.
pub struct PairSecret {
    pub bytes: [u8; 16],
}

/// `subtle::ConstantTimeEq::ct_eq`, on the bytes of two secrets, says whether
/// they are the same. That it takes as long either way is not part of the
/// claim.
#[verifier::external_body]
fn same_secret(a: &[u8; 16], b: &[u8; 16]) -> (r: bool)
    ensures
        r == (a@ == b@),
{
    subtle::ConstantTimeEq::ct_eq(a.as_slice(), b.as_slice()).into()
}

/// `rand::random` gives some bytes. Nothing is claimed of which.
#[verifier::external_body]
fn random_secret() -> (bytes: [u8; 16]) {
    rand::random()
}

impl PairSecret {
    /// A fresh secret.
    pub fn generate() -> (secret: Self) {
        PairSecret { bytes: random_secret() }
    }

    /// Whether a candidate is this secret. Compared in constant time, so a
    /// wrong guess leaks nothing through how long the answer took.
    pub fn verify(&self, candidate: &PairSecret) -> (r: bool)
        ensures
            r == (self.bytes@ == candidate.bytes@),
    {
        same_secret(&self.bytes, &candidate.bytes)
    }

    /// The same secret again.
    pub fn copy(&self) -> (other: Self)
        ensures
            other == *self,
    {
        PairSecret { bytes: self.bytes }
    }
}

/// The address that some bytes begin with, as the public key of the machine
/// and how many bytes follow the address.
pub uninterp spec fn leading_addr(bytes: Seq<u8>) -> Option<(Seq<u8>, nat)>;

/// `postcard::take_from_bytes`, for an `iroh::EndpointAddr`: the public key of
/// the machine it leads to, and how many bytes follow it. Nothing is claimed of
/// the rest of the address.
#[verifier::external_body]
fn take_addr(bytes: &[u8]) -> (addr: Option<([u8; 32], usize)>)
    ensures
        addr is Some == leading_addr(bytes@) is Some,
        addr is Some ==> ((addr->0).0@, (addr->0).1 as nat) == leading_addr(bytes@)->0,
        addr is Some ==> (addr->0).1 <= bytes@.len(),
{
    let (addr, rest) = postcard::take_from_bytes::<iroh::EndpointAddr>(bytes).ok()?;
    Some((*addr.id.as_bytes(), rest.len()))
}

/// Why a text is no ticket.
#[derive(Clone, Copy, Debug, PartialEq, Eq, Structural)]
pub enum TicketError {
    /// It is not a pairing ticket at all.
    NotATicket,
    /// It was a ticket, and is mangled.
    Invalid,
    /// It was a ticket, and something follows it.
    TrailingBytes,
}

/// What the host prints and the joiner redeems.
pub struct PairTicket {
    /// The machine that issued the ticket.
    pub host: EndpointId,
    /// Where it can be reached, encoded.
    pub addr: Vec<u8>,
    pub secret: PairSecret,
}

/// What a ticket says.
#[verifier::ext_equal]
pub struct TicketView {
    pub host: EndpointId,
    pub addr: Seq<u8>,
    pub secret: Seq<u8>,
}

impl View for PairTicket {
    type V = TicketView;

    open spec fn view(&self) -> TicketView {
        TicketView { host: self.host, addr: self.addr@, secret: self.secret.bytes@ }
    }
}

impl TicketView {
    /// The bytes of the ticket.
    pub open spec fn bytes(self) -> Seq<u8> {
        self.addr + self.secret
    }

    /// Whether the address in the ticket is one, and that of its host.
    pub open spec fn valid(self) -> bool {
        &&& self.secret.len() == SECRET_BYTES
        &&& leading_addr(self.bytes()) == Some((self.host.key.bytes(), SECRET_BYTES as nat))
        &&& self.bytes().len() <= usize::MAX / 512
    }

    /// The text of the ticket.
    pub open spec fn text(self) -> Seq<char> {
        TICKET_PREFIX@ + text::lowered(encoding::base32(self.bytes()))
    }
}

/// Whether some bytes are an encoded address that a ticket can carry beside a
/// secret.
pub open spec fn leads(addr: Seq<u8>, secret: Seq<u8>) -> bool {
    &&& addr.len() + SECRET_BYTES <= usize::MAX / 512
    &&& leading_addr(addr + secret) matches Some((_, left)) && left == SECRET_BYTES
}

/// A letter of the English alphabet in upper case, any other character as it
/// is.
pub open spec fn upper(c: char) -> char {
    if 'a' <= c <= 'z' {
        (c as u32 - 32) as char
    } else {
        c
    }
}

/// A text with its English letters in upper case.
pub open spec fn uppered(t: Seq<char>) -> Seq<char> {
    t.map_values(|c: char| upper(c))
}

/// The base32 of a ticket in a text, if it is one.
pub open spec fn encoded_part(t: Seq<char>) -> Option<Seq<char>> {
    let bare = preview::trimmed(t);
    if TICKET_PREFIX@.is_prefix_of(bare) {
        Some(uppered(bare.skip(TICKET_PREFIX@.len() as int)))
    } else {
        None
    }
}

/// The ticket that some bytes hold, if they hold one and nothing else.
pub open spec fn ticket_in(bytes: Seq<u8>) -> Result<TicketView, TicketError> {
    match leading_addr(bytes) {
        None => Err(TicketError::Invalid),
        Some((key, left)) => if bytes.len() > usize::MAX / 512 || left < SECRET_BYTES {
            Err(TicketError::Invalid)
        } else if left > SECRET_BYTES {
            Err(TicketError::TrailingBytes)
        } else {
            Ok(
                TicketView {
                    host: host_of(key),
                    addr: bytes.take(bytes.len() - SECRET_BYTES),
                    secret: bytes.skip(bytes.len() - SECRET_BYTES),
                },
            )
        },
    }
}

/// The machine with a public key.
pub open spec fn host_of(key: Seq<u8>) -> EndpointId {
    choose|id: EndpointId| (#[trigger] id.key.bytes()) == key
}

/// Whether a text is read as a ticket, or refused.
pub open spec fn reads(t: Seq<char>, result: Result<TicketView, TicketError>) -> bool {
    match encoded_part(t) {
        None => result == Err::<TicketView, TicketError>(TicketError::NotATicket),
        Some(encoded) => {
            ||| exists|bytes: Seq<u8>| #[trigger] encoding::base32(bytes) == encoded && result
                == ticket_in(bytes)
            ||| (forall|bytes: Seq<u8>| #[trigger] encoding::base32(bytes) != encoded) && result
                == Err::<TicketView, TicketError>(TicketError::Invalid)
        },
    }
}

/// What parsing a text gives: what it reads as. A text that no machine could
/// take apart is refused unread.
pub open spec fn parses(t: Seq<char>, result: Result<TicketView, TicketError>) -> bool {
    ||| reads(t, result)
    ||| vstd::utf8::encode_utf8(encoded_part(t)->0).len() > usize::MAX / 8 && result == Err::<
        TicketView,
        TicketError,
    >(TicketError::Invalid)
}

/// What reading a text gave.
pub open spec fn read_as(result: Result<PairTicket, TicketError>) -> Result<TicketView, TicketError> {
    match result {
        Ok(ticket) => Ok(ticket@),
        Err(error) => Err(error),
    }
}

/// An English letter in upper case.
fn upper_char(c: char) -> (u: char)
    ensures
        u == upper(c),
{
    if 'a' <= c && c <= 'z' {
        let code: u8 = c as u8;
        (code - 32) as char
    } else {
        c
    }
}

proof fn lemma_host(word: Word)
    ensures
        host_of(word.bytes()) == (EndpointId { key: word }),
{
    let id = EndpointId { key: word };
    assert(id.key.bytes() == word.bytes());
    let other = host_of(word.bytes());
    Word::lemma_bytes_name_the_word(other.key, word);
}

impl PairTicket {
    /// Issues a ticket, with a fresh secret, for a host reachable at an encoded
    /// address; nothing when that is no address.
    pub fn generate(addr: &[u8]) -> (ticket: Option<Self>)
        ensures
            match ticket {
                Some(ticket) => ticket@.valid() && ticket@.addr == addr@,
                None => exists|secret: PairSecret| !#[trigger] leads(addr@, secret.bytes@),
            },
    {
        let secret = PairSecret::generate();
        PairTicket::issue(addr, secret)
    }

    /// Issues a ticket with a secret, for a host reachable at an encoded
    /// address; nothing when that is no address.
    pub fn issue(addr: &[u8], secret: PairSecret) -> (ticket: Option<Self>)
        ensures
            match ticket {
                Some(ticket) => ticket@.valid() && ticket@.addr == addr@ && ticket@.secret
                    == secret.bytes@,
                None => !leads(addr@, secret.bytes@),
            },
    {
        if addr.len() > usize::MAX / 512 - SECRET_BYTES {
            return None;
        }
        let mut bytes = vstd::slice::slice_to_vec(addr);
        append(&mut bytes, secret.bytes.as_slice());
        let (key, left) = match take_addr(bytes.as_slice()) {
            Some(found) => found,
            None => {
                return None;
            },
        };
        if left != SECRET_BYTES {
            return None;
        }
        let host = EndpointId::from_bytes(&key);
        Some(PairTicket { host, addr: vstd::slice::slice_to_vec(addr), secret })
    }

    /// Whether `other` is this same issued ticket.
    pub fn matches(&self, other: &PairTicket) -> (r: bool)
        ensures
            r == (self@.secret == other@.secret),
    {
        self.secret.verify(&other.secret)
    }

    /// The same ticket again.
    pub fn clone(&self) -> (other: Self)
        ensures
            other@ == self@,
    {
        PairTicket {
            host: self.host,
            addr: vstd::slice::slice_to_vec(self.addr.as_slice()),
            secret: self.secret.copy(),
        }
    }

    /// The text to carry to the other machine.
    pub fn text(&self) -> (t: String)
        requires
            self@.bytes().len() <= usize::MAX / 512,
        ensures
            t@ == self@.text(),
    {
        let mut bytes = vstd::slice::slice_to_vec(self.addr.as_slice());
        append(&mut bytes, self.secret.bytes.as_slice());
        let encoded = base32_encode(bytes.as_slice());
        let lower = text::lower_chars(encoded.as_str());
        let mut t = String::new();
        t.append(TICKET_PREFIX);
        let rest = text::text_of(lower.as_slice());
        t.append(rest.as_str());
        assert(t@ =~= self@.text());
        t
    }

    /// Reads a ticket back from its text.
    pub fn parse(t: &str) -> (result: Result<PairTicket, TicketError>)
        ensures
            parses(t@, read_as(result)),
            result matches Ok(ticket) ==> ticket@.valid(),
    {
        let chars = chars_of(t);
        let bare = preview::trim(chars.as_slice());
        let prefix = chars_of(TICKET_PREFIX);
        if !begins(bare.as_slice(), prefix.as_slice()) {
            return Err(TicketError::NotATicket);
        }
        let upper = upper_tail(bare.as_slice(), prefix.len());
        let encoded = text::text_of(upper.as_slice());
        assert(encoded_part(t@) == Some(encoded@));
        if encoded.as_str().as_bytes().len() > usize::MAX / 8 {
            return Err(TicketError::Invalid);
        }
        let bytes = match base32_decode(encoded.as_str()) {
            Some(bytes) => bytes,
            None => {
                return Err(TicketError::Invalid);
            },
        };
        let (key, left) = match take_addr(bytes.as_slice()) {
            Some(found) => found,
            None => {
                assert(ticket_in(bytes@) == Err::<TicketView, TicketError>(TicketError::Invalid));
                return Err(TicketError::Invalid);
            },
        };
        if bytes.len() > usize::MAX / 512 || left < SECRET_BYTES {
            assert(ticket_in(bytes@) == Err::<TicketView, TicketError>(TicketError::Invalid));
            return Err(TicketError::Invalid);
        }
        if left > SECRET_BYTES {
            assert(ticket_in(bytes@) == Err::<TicketView, TicketError>(TicketError::TrailingBytes));
            return Err(TicketError::TrailingBytes);
        }
        let at: usize = bytes.len() - SECRET_BYTES;
        let addr = vstd::slice::slice_to_vec(vstd::slice::slice_subrange(bytes.as_slice(), 0, at));
        let secret = secret_at(bytes.as_slice(), at);
        let host = EndpointId::from_bytes(&key);
        let ticket = PairTicket { host, addr, secret };
        proof {
            lemma_host(host.key);
            assert(ticket@.bytes() =~= bytes@);
            assert(ticket@ =~= (TicketView {
                host: host_of(key@),
                addr: bytes@.take(at as int),
                secret: bytes@.skip(at as int),
            }));
            assert(Ok::<TicketView, TicketError>(ticket@) == ticket_in(bytes@));
        }
        Ok(ticket)
    }
}

/// Whether some characters begin with others.
fn begins(chars: &[char], prefix: &[char]) -> (r: bool)
    ensures
        r == prefix@.is_prefix_of(chars@),
{
    if chars.len() < prefix.len() {
        return false;
    }
    let mut i: usize = 0;
    while i < prefix.len()
        invariant
            i <= prefix.len() <= chars.len(),
            forall|j: int| 0 <= j < i ==> #[trigger] prefix@[j] == chars@[j],
        decreases prefix.len() - i,
    {
        if chars[i] != prefix[i] {
            assert(chars@.subrange(0, prefix@.len() as int)[i as int] != prefix@[i as int]);
            return false;
        }
        i += 1;
    }
    assert(prefix@ =~= chars@.subrange(0, prefix@.len() as int));
    true
}

/// What follows the first characters, in upper case.
fn upper_tail(chars: &[char], from: usize) -> (tail: Vec<char>)
    requires
        from <= chars@.len(),
    ensures
        tail@ == uppered(chars@.skip(from as int)),
{
    let mut tail: Vec<char> = Vec::new();
    let mut i: usize = from;
    while i < chars.len()
        invariant
            from <= i <= chars.len(),
            tail@ == uppered(chars@.subrange(from as int, i as int)),
        decreases chars.len() - i,
    {
        tail.push(upper_char(chars[i]));
        i += 1;
        assert(tail@ =~= uppered(chars@.subrange(from as int, i as int)));
    }
    assert(chars@.subrange(from as int, i as int) =~= chars@.skip(from as int));
    tail
}

/// The secret at the end of some bytes.
fn secret_at(bytes: &[u8], at: usize) -> (secret: PairSecret)
    requires
        at + SECRET_BYTES == bytes@.len(),
    ensures
        secret.bytes@ == bytes@.skip(at as int),
{
    let mut found: [u8; 16] = [0;16];
    let n: usize = bytes.len();
    let mut i: usize = 0;
    while i < SECRET_BYTES
        invariant
            i <= SECRET_BYTES,
            n == bytes@.len(),
            at + SECRET_BYTES == n,
            forall|j: int| 0 <= j < i ==> #[trigger] found@[j] == bytes@[at + j],
        decreases SECRET_BYTES - i,
    {
        found[i] = bytes[at + i];
        i += 1;
    }
    assert(found@ =~= bytes@.skip(at as int));
    PairSecret { bytes: found }
}

/// What a ticket is printed as is read back as that ticket.
pub proof fn tickets_round_trip(ticket: TicketView, result: Result<TicketView, TicketError>)
    requires
        ticket.valid(),
        reads(ticket.text(), result),
    ensures
        result == Ok::<TicketView, TicketError>(ticket),
{
    let body = encoding::base32(ticket.bytes());
    let t = ticket.text();
    reveal_strlit("yank-pair-");
    lemma_printable(ticket);
    assert(preview::trimmed(t) == t);
    assert(TICKET_PREFIX@ =~= t.subrange(0, TICKET_PREFIX@.len() as int));
    assert(t.skip(TICKET_PREFIX@.len() as int) =~= text::lowered(body));
    assert(uppered(text::lowered(body)) =~= body) by {
        assert forall|i: int| 0 <= i < body.len() implies upper(text::lower(#[trigger] body[i]))
            == body[i] by {
            lemma_symbol(body, ticket.bytes(), i);
        }
    }
    assert(encoded_part(t) == Some(body));
    assert forall|bytes: Seq<u8>| #[trigger] encoding::base32(bytes) == body implies bytes
        == ticket.bytes() by {
        encoding::lemma_base32_is_unique(bytes, ticket.bytes());
    }
    assert(encoding::base32(ticket.bytes()) == body);
    let bytes = ticket.bytes();
    lemma_host(ticket.host.key);
    assert(bytes.take(bytes.len() - SECRET_BYTES) =~= ticket.addr);
    assert(bytes.skip(bytes.len() - SECRET_BYTES) =~= ticket.secret);
}

/// Every character of a base32 text is one of its symbols.
proof fn lemma_symbol(body: Seq<char>, bytes: Seq<u8>, i: int)
    requires
        body == encoding::base32(bytes),
        0 <= i < body.len(),
    ensures
        'A' <= body[i] <= 'Z' || '2' <= body[i] <= '7',
{
}

/// A ticket begins and ends with no white space.
proof fn lemma_printable(ticket: TicketView)
    requires
        ticket.valid(),
    ensures
        preview::trimmed(ticket.text()) == ticket.text(),
{
    reveal_strlit("yank-pair-");
    let t = ticket.text();
    let body = encoding::base32(ticket.bytes());
    assert(body.len() > 0);
    lemma_symbol(body, ticket.bytes(), body.len() - 1);
    assert(t[0] == 'y');
    assert(t.last() == text::lower(body[body.len() - 1]));
}

/// A ticket is read back with white space around it.
pub proof fn a_ticket_may_be_typed_loosely(
    ticket: TicketView,
    first: Seq<char>,
    last: Seq<char>,
    result: Result<TicketView, TicketError>,
)
    requires
        ticket.valid(),
        preview::blank(first),
        preview::blank(last),
        reads(first + ticket.text() + last, result),
    ensures
        result == Ok::<TicketView, TicketError>(ticket),
{
    let t = ticket.text();
    let body = encoding::base32(ticket.bytes());
    reveal_strlit("yank-pair-");
    assert(body.len() > 0);
    lemma_symbol(body, ticket.bytes(), body.len() - 1);
    assert(t[0] == 'y');
    assert(t.last() == text::lower(body[body.len() - 1]));
    preview::white_space_around_does_not_count(t, first, last);
    lemma_printable(ticket);
    assert(encoded_part(first + t + last) == encoded_part(t));
    assert(reads(t, result));
    tickets_round_trip(ticket, result);
}

/// A text that does not begin as a ticket does is none, and nothing is read of
/// it.
pub proof fn what_is_no_ticket_is_said_to_be_none(
    t: Seq<char>,
    result: Result<TicketView, TicketError>,
)
    requires
        reads(t, result),
        t.len() > 0 && !preview::space(t[0]) && !preview::space(t.last()),
        !"yank-pair-"@.is_prefix_of(t),
    ensures
        result == Err::<TicketView, TicketError>(TicketError::NotATicket),
{
    let none = Seq::<char>::empty();
    preview::white_space_around_does_not_count(t, none, none);
    assert(none + t + none =~= t);
}


} // verus!
