//! Length-prefixed framing.
//!
//! Shared by every protocol, between machines and locally over the control
//! socket: a message is a little-endian `u32` size followed by its encoding.
//! Callers pass the size they are willing to accept, because on an
//! unauthenticated stream the prefix is written by whoever is on the other end.

use crate::files::uri::append;
use vstd::prelude::*;

verus! {

/// Why a message is not sent or not taken.
#[derive(Clone, Copy, Debug, PartialEq, Eq, Structural)]
pub enum WireError {
    /// The message is too large.
    TooLarge,
    /// The message has bytes left over once it is decoded.
    TrailingBytes,
}

/// The four bytes of a size, the lowest first.
pub open spec fn size_bytes(size: u32) -> Seq<u8> {
    seq![
        (size % 0x100) as u8,
        (size / 0x100 % 0x100) as u8,
        (size / 0x1_0000 % 0x100) as u8,
        (size / 0x100_0000) as u8,
    ]
}

/// The size that four bytes spell, the lowest first.
pub open spec fn size_of(bytes: Seq<u8>) -> int {
    bytes[0] + 0x100 * bytes[1] + 0x1_0000 * bytes[2] + 0x100_0000 * bytes[3]
}

/// A message on the wire.
pub open spec fn framed(message: Seq<u8>) -> Seq<u8> {
    size_bytes(message.len() as u32) + message
}

/// Prefixes an encoded message with its size, refusing one over `max_size`.
pub fn frame(message: &[u8], max_size: u32) -> (result: Result<Vec<u8>, WireError>)
    ensures
        match result {
            Ok(bytes) => message@.len() <= max_size && bytes@ == framed(message@),
            Err(error) => message@.len() > max_size && error == WireError::TooLarge,
        },
{
    let n: usize = message.len();
    if n as u128 > max_size as u128 {
        return Err(WireError::TooLarge);
    }
    let size: u32 = n as u32;
    let mut bytes: Vec<u8> = Vec::new();
    bytes.push((size % 0x100) as u8);
    bytes.push((size / 0x100 % 0x100) as u8);
    bytes.push((size / 0x1_0000 % 0x100) as u8);
    bytes.push((size / 0x100_0000) as u8);
    assert(bytes@ =~= size_bytes(size));
    append(&mut bytes, message);
    Ok(bytes)
}

/// How many bytes follow a prefix, refusing sizes over `max_size` before
/// anything is allocated for them.
pub fn announced(prefix: [u8; 4], max_size: u32) -> (result: Result<usize, WireError>)
    ensures
        match result {
            Ok(size) => size == size_of(prefix@) && size <= max_size,
            Err(error) => size_of(prefix@) > max_size && error == WireError::TooLarge,
        },
{
    let size: u32 = prefix[0] as u32 + 0x100 * prefix[1] as u32 + 0x1_0000 * prefix[2] as u32
        + 0x100_0000 * prefix[3] as u32;
    if size <= max_size {
        Ok(size as usize)
    } else {
        Err(WireError::TooLarge)
    }
}

/// What is left of a message once it is decoded has to be nothing.
pub fn check_rest(rest: usize) -> (result: Result<(), WireError>)
    ensures
        result == (if rest == 0 {
            Ok::<(), WireError>(())
        } else {
            Err(WireError::TrailingBytes)
        }),
{
    if rest == 0 {
        Ok(())
    } else {
        Err(WireError::TrailingBytes)
    }
}

/// The prefix of a message says how long it is: what was framed is read back,
/// and nothing past it.
pub proof fn messages_round_trip(message: Seq<u8>, more: Seq<u8>)
    requires
        message.len() <= u32::MAX,
    ensures
        ({
            let wire = framed(message) + more;
            let size = size_of(wire.take(4));
            &&& size == message.len()
            &&& wire.subrange(4, 4 + size) == message
            &&& wire.skip(4 + size) == more
        }),
{
    let wire = framed(message) + more;
    let size = message.len() as u32;
    assert(wire.take(4) =~= size_bytes(size));
    assert(size_of(size_bytes(size)) == size);
    assert(wire.subrange(4, 4 + message.len() as int) =~= message);
    assert(wire.skip(4 + message.len() as int) =~= more);
}

/// A size over what the receiver accepts is refused on both sides: it is
/// neither sent nor read.
pub proof fn sizes_are_bounded_on_both_sides(size: u32, max_size: u32)
    requires
        size > max_size,
    ensures
        size_of(size_bytes(size)) > max_size,
{
    assert(size_of(size_bytes(size)) == size);
}

} // verus!
