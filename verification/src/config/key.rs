//! This machine's identity on the mesh.
//!
//! The private half is what connections are authenticated with, so it must
//! never be shared between machines; the public half is the endpoint id peers
//! dial. Written down in base64.

use crate::encoding;
use crate::encoding::{base64_decode, base64_encode};
use crate::log::EndpointId;
use crate::text;
use vstd::prelude::*;

verus! {

/// The machine's secret identity key.
pub struct MachineKey {
    secret: [u8; 32],
}

impl View for MachineKey {
    type V = Seq<u8>;

    closed spec fn view(&self) -> Seq<u8> {
        self.secret@
    }
}

/// Why the text of a key is refused.
#[derive(Clone, Copy, Debug, PartialEq, Eq, Structural)]
pub enum KeyError {
    /// It is no base64.
    Undecodable,
    /// It is not thirty-two bytes.
    WrongLength,
}

/// The public half of a secret key.
pub uninterp spec fn public_half(secret: Seq<u8>) -> Seq<u8>;

/// `iroh::SecretKey::public`, of the key with those bytes
/// (`iroh::SecretKey::from_bytes`, which takes any): its public half, always
/// the same for the same key.
#[verifier::external_body]
fn public_bytes(secret: &[u8; 32]) -> (bytes: [u8; 32])
    ensures
        bytes@ == public_half(secret@),
{
    *iroh::SecretKey::from_bytes(secret).public().as_bytes()
}

/// `iroh::SecretKey::generate` draws a key at random, whose bytes
/// `iroh::SecretKey::to_bytes` gives. Nothing is claimed of which.
#[verifier::external_body]
fn random_key() -> (bytes: [u8; 32]) {
    iroh::SecretKey::generate().to_bytes()
}

/// Whether a character is blank.
pub open spec fn blank(c: char) -> bool {
    c == ' ' || c == '\t' || c == '\n' || c == '\r' || c == '\u{c}'
}

fn is_blank(c: char) -> (r: bool)
    ensures
        r == blank(c),
{
    c == ' ' || c == '\t' || c == '\n' || c == '\r' || c == '\u{c}'
}

/// A text without the blanks before and after it.
pub open spec fn trimmed(t: Seq<char>) -> Seq<char>
    decreases t.len(),
{
    if t.len() > 0 && blank(t[0]) {
        trimmed(t.skip(1))
    } else if t.len() > 0 && blank(t.last()) {
        trimmed(t.drop_last())
    } else {
        t
    }
}

fn trim(chars: &Vec<char>) -> (bare: Vec<char>)
    ensures
        bare@ == trimmed(chars@),
{
    let ghost all = chars@;
    let mut from: usize = 0;
    assert(all.skip(0) =~= all);
    while from < chars.len() && is_blank(chars[from])
        invariant
            from <= chars.len(),
            all == chars@,
            trimmed(all) == trimmed(all.skip(from as int)),
        decreases chars.len() - from,
    {
        assert(all.skip(from as int).skip(1) =~= all.skip(from + 1));
        from += 1;
    }
    let mut to: usize = chars.len();
    assert(all.subrange(from as int, to as int) =~= all.skip(from as int));
    while from < to && is_blank(chars[to - 1])
        invariant
            from <= to <= chars.len(),
            all == chars@,
            from < to ==> !blank(all[from as int]),
            trimmed(all) == trimmed(all.subrange(from as int, to as int)),
        decreases to - from,
    {
        assert(all.subrange(from as int, to as int).drop_last() =~= all.subrange(
            from as int,
            to - 1,
        ));
        to -= 1;
    }
    let mut bare: Vec<char> = Vec::new();
    let mut i: usize = from;
    while i < to
        invariant
            from <= i <= to <= chars.len(),
            all == chars@,
            bare@ == all.subrange(from as int, i as int),
        decreases to - i,
    {
        bare.push(chars[i]);
        i += 1;
        assert(bare@ =~= all.subrange(from as int, i as int));
    }
    bare
}

/// What the text of a key means.
pub open spec fn key_in(t: Seq<char>) -> Result<Seq<u8>, KeyError> {
    let bare = trimmed(t);
    if vstd::utf8::encode_utf8(bare).len() > usize::MAX / 8 {
        Err(KeyError::Undecodable)
    } else {
        match encoding::base64_meaning(bare) {
            None => Err(KeyError::Undecodable),
            Some(bytes) => if bytes.len() == 32 {
                Ok(bytes)
            } else {
                Err(KeyError::WrongLength)
            },
        }
    }
}

/// What reading a text gives: what it means, which is the key when it is that
/// of one.
pub open spec fn reads(t: Seq<char>, outcome: Result<Seq<u8>, KeyError>) -> bool {
    &&& outcome == key_in(t)
    &&& forall|secret: Seq<u8>|
        secret.len() == 32 && #[trigger] encoding::base64(secret) == trimmed(t)
            && vstd::utf8::encode_utf8(trimmed(t)).len() <= usize::MAX / 8 ==> outcome == Ok::<
            Seq<u8>,
            KeyError,
        >(secret)
}

/// What reading a key gave, for contracts.
pub open spec fn read_as(result: Result<MachineKey, KeyError>) -> Result<Seq<u8>, KeyError> {
    match result {
        Ok(key) => Ok(key@),
        Err(error) => Err(error),
    }
}

impl MachineKey {
    /// The key with those bytes.
    pub fn from_bytes(secret: [u8; 32]) -> (key: Self)
        ensures
            key@ == secret@,
    {
        MachineKey { secret }
    }

    /// A fresh key.
    pub fn generate() -> (key: Self) {
        MachineKey { secret: random_key() }
    }

    /// Reads a key back from its text.
    pub fn decode(content: &str) -> (result: Result<Self, KeyError>)
        ensures
            reads(content@, read_as(result)),
    {
        let chars = text::chars_of(content);
        let bare = text::text_of(trim(&chars).as_slice());
        if bare.as_str().as_bytes().len() > usize::MAX / 8 {
            return Err(KeyError::Undecodable);
        }
        match base64_decode(bare.as_str()) {
            None => Err(KeyError::Undecodable),
            Some(bytes) => {
                if bytes.len() != 32 {
                    return Err(KeyError::WrongLength);
                }
                let mut secret: [u8; 32] = [0; 32];
                let mut i: usize = 0;
                while i < 32
                    invariant
                        i <= 32,
                        bytes.len() == 32,
                        secret@.take(i as int) == bytes@.take(i as int),
                    decreases 32 - i,
                {
                    secret[i] = bytes[i];
                    i += 1;
                    assert(secret@.take(i as int) =~= secret@.take(i - 1).push(bytes@[i - 1]));
                    assert(bytes@.take(i as int) =~= bytes@.take(i - 1).push(bytes@[i - 1]));
                }
                assert(secret@ =~= secret@.take(32));
                assert(bytes@ =~= bytes@.take(32));
                Ok(MachineKey { secret })
            },
        }
    }

    /// The text a key is written down as.
    pub fn encode(&self) -> (content: String)
        ensures
            content@ == encoding::base64(self@),
            self@.len() == 32,
    {
        base64_encode(self.secret.as_slice())
    }

    /// This machine's public identity, which peers dial.
    pub fn endpoint_id(&self) -> (id: EndpointId)
        ensures
            id.key.bytes() == public_half(self@),
    {
        let bytes = public_bytes(&self.secret);
        EndpointId::from_bytes(&bytes)
    }

    /// The secret half, needed to bind the endpoint.
    pub fn secret(&self) -> (bytes: [u8; 32])
        ensures
            bytes@ == self@,
    {
        self.secret
    }
}

/// A key read back from its own text is the key it was.
pub proof fn keys_round_trip(secret: Seq<u8>, outcome: Result<Seq<u8>, KeyError>)
    requires
        secret.len() == 32,
        reads(encoding::base64(secret), outcome),
    ensures
        outcome == Ok::<Seq<u8>, KeyError>(secret),
{
    let t = encoding::base64(secret);
    assert forall|i: int| 0 <= i < t.len() implies (#[trigger] t[i]) as nat > 32 && (
    t[i] as nat) < 128 by {
        encoding::lemma_base64_symbols(secret, i);
    }
    assert(vstd::utf8::is_ascii_chars(t));
    vstd::utf8::is_ascii_chars_encode_utf8(t);
    assert(trimmed(t) == t);
}

/// Whether a text is made of blanks, tabs and line ends.
pub open spec fn all_blank(t: Seq<char>) -> bool {
    forall|i: int| 0 <= i < t.len() ==> seq![' ', '\t', '\n', '\r', '\u{c}'].contains(#[trigger] t[i])
}

/// Blanks and line ends around the text of a key do not count.
pub proof fn blanks_around_a_key_do_not_count(
    t: Seq<char>,
    first: Seq<char>,
    last: Seq<char>,
)
    requires
        t.len() > 0,
        !all_blank(seq![t[0]]),
        !all_blank(seq![t.last()]),
        all_blank(first),
        all_blank(last),
    ensures
        trimmed(first + t + last) == t,
    decreases first.len() + last.len(),
{
    let blanks = seq![' ', '\t', '\n', '\r', '\u{c}'];
    assert forall|c: char| blank(c) == #[trigger] blanks.contains(c) by {
        if blank(c) {
            assert(blanks[0] == ' ' && blanks[1] == '\t' && blanks[2] == '\n' && blanks[3] == '\r'
                && blanks[4] == '\u{c}');
        }
    }
    let all = first + t + last;
    if first.len() > 0 {
        assert(blanks.contains(first[0]));
        assert(all[0] == first[0]);
        assert(all.skip(1) =~= first.skip(1) + t + last);
        assert forall|i: int| 0 <= i < first.skip(1).len() implies blanks.contains(
            #[trigger] first.skip(1)[i],
        ) by {
            assert(first.skip(1)[i] == first[i + 1]);
        }
        blanks_around_a_key_do_not_count(t, first.skip(1), last);
    } else if last.len() > 0 {
        assert(blanks.contains(last[last.len() - 1]));
        assert(all.last() == last[last.len() - 1]);
        assert(all[0] == t[0]);
        assert(seq![t[0]][0] == t[0]);
        assert(all.drop_last() =~= first + t + last.drop_last());
        assert forall|i: int| 0 <= i < last.drop_last().len() implies blanks.contains(
            #[trigger] last.drop_last()[i],
        ) by {
            assert(last.drop_last()[i] == last[i]);
        }
        blanks_around_a_key_do_not_count(t, first, last.drop_last());
    } else {
        assert(all =~= t);
    }
}

} // verus!
