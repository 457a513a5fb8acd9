//! Bytes written out as text.

use vstd::prelude::*;

verus! {

/// What a bit is worth within its byte, the first bit being worth the most.
pub open spec fn bit_worth(k: int) -> int {
    if k == 0 {
        128
    } else if k == 1 {
        64
    } else if k == 2 {
        32
    } else if k == 3 {
        16
    } else if k == 4 {
        8
    } else if k == 5 {
        4
    } else if k == 6 {
        2
    } else {
        1
    }
}

/// A bit of some bytes, counted from the first bit of the first byte; zero
/// past the end.
pub open spec fn bit(bytes: Seq<u8>, k: int) -> int {
    if 0 <= k < 8 * bytes.len() {
        (bytes[k / 8] as int / bit_worth(k % 8)) % 2
    } else {
        0
    }
}

/// A letter of the base32 alphabet: `A` to `Z`, then `2` to `7`.
pub open spec fn base32_symbol(value: int) -> char {
    if value < 26 {
        (65 + value) as char
    } else {
        (24 + value) as char
    }
}

/// Some bytes in base32 without padding: every five bits make one letter.
pub open spec fn base32(bytes: Seq<u8>) -> Seq<char> {
    Seq::new(
        ((8 * bytes.len() + 4) / 5) as nat,
        |i: int|
            base32_symbol(
                16 * bit(bytes, 5 * i) + 8 * bit(bytes, 5 * i + 1) + 4 * bit(bytes, 5 * i + 2) + 2
                    * bit(bytes, 5 * i + 3) + bit(bytes, 5 * i + 4),
            ),
    )
}

/// A letter of the base64 alphabet: `A` to `Z`, `a` to `z`, `0` to `9`, `+`
/// and `/`.
pub open spec fn base64_symbol(value: int) -> char {
    if value < 26 {
        (65 + value) as char
    } else if value < 52 {
        (71 + value) as char
    } else if value < 62 {
        (value - 4) as char
    } else if value == 62 {
        '+'
    } else {
        '/'
    }
}

/// Some bytes in base64: every six bits make one letter, and `=` pads them to
/// a multiple of four.
pub open spec fn base64(bytes: Seq<u8>) -> Seq<char> {
    Seq::new(
        ((bytes.len() + 2) / 3 * 4) as nat,
        |i: int|
            if 6 * i < 8 * bytes.len() {
                base64_symbol(
                    32 * bit(bytes, 6 * i) + 16 * bit(bytes, 6 * i + 1) + 8 * bit(bytes, 6 * i + 2)
                        + 4 * bit(bytes, 6 * i + 3) + 2 * bit(bytes, 6 * i + 4) + bit(
                        bytes,
                        6 * i + 5,
                    ),
                )
            } else {
                '='
            },
    )
}

/// The bytes that a text means in base64, whether it is the base64 of them or
/// of pieces of them, one after the other.
pub uninterp spec fn base64_meaning(text: Seq<char>) -> Option<Seq<u8>>;

/// A digit of the base16 alphabet, in lower case.
pub open spec fn hex_symbol(value: int) -> char {
    if value < 10 {
        (48 + value) as char
    } else {
        (87 + value) as char
    }
}

/// Some bytes in base16, two lower-case digits for each.
pub open spec fn hex(bytes: Seq<u8>) -> Seq<char> {
    Seq::new(
        2 * bytes.len(),
        |i: int|
            hex_symbol(
                if i % 2 == 0 {
                    bytes[i / 2] as int / 16
                } else {
                    bytes[i / 2] as int % 16
                },
            ),
    )
}

/// Base64 is made of visible ASCII characters.
pub proof fn lemma_base64_symbols(bytes: Seq<u8>, i: int)
    requires
        0 <= i < base64(bytes).len(),
    ensures
        32 < base64(bytes)[i] as nat,
        (base64(bytes)[i] as nat) < 128,
{
    let value = 32 * bit(bytes, 6 * i) + 16 * bit(bytes, 6 * i + 1) + 8 * bit(bytes, 6 * i + 2) + 4
        * bit(bytes, 6 * i + 3) + 2 * bit(bytes, 6 * i + 4) + bit(bytes, 6 * i + 5);
    assert(0 <= value < 64);
    assert(base64_symbol(value) as nat > 32);
}

/// `data_encoding::BASE32_NOPAD.encode` writes the bytes in base32, without
/// padding. It may panic on more than `usize::MAX / 512` bytes.
#[verifier::external_body]
pub(crate) fn base32_encode(bytes: &[u8]) -> (text: String)
    requires
        bytes@.len() <= usize::MAX / 512,
    ensures
        text@ == base32(bytes@),
{
    data_encoding::BASE32_NOPAD.encode(bytes)
}

/// `data_encoding::BASE32_NOPAD.decode` gives the bytes whose base32 the text
/// is, and an error when it is that of none: the encoding checks trailing
/// bits and translates no characters. It may panic on a text of more than
/// `usize::MAX / 8` bytes.
#[verifier::external_body]
pub(crate) fn base32_decode(text: &str) -> (decoded: Option<Vec<u8>>)
    requires
        vstd::utf8::encode_utf8(text@).len() <= usize::MAX / 8,
    ensures
        decoded is Some ==> base32(decoded->0@) == text@,
        decoded is None ==> forall|bytes: Seq<u8>| #[trigger] base32(bytes) != text@,
{
    data_encoding::BASE32_NOPAD.decode(text.as_bytes()).ok()
}

/// `data_encoding::BASE64.encode` writes the bytes in base64, with padding. It
/// may panic on more than `usize::MAX / 512` bytes.
#[verifier::external_body]
pub(crate) fn base64_encode(bytes: &[u8]) -> (text: String)
    requires
        bytes@.len() <= usize::MAX / 512,
    ensures
        text@ == base64(bytes@),
{
    data_encoding::BASE64.encode(bytes)
}

/// `data_encoding::BASE64.decode` gives back the bytes whose base64 the text
/// is. It takes more texts than those, as padded pieces may follow each other:
/// what any text means is a function of the text. It may panic on a text of
/// more than `usize::MAX / 8` bytes.
#[verifier::external_body]
pub(crate) fn base64_decode(text: &str) -> (decoded: Option<Vec<u8>>)
    requires
        vstd::utf8::encode_utf8(text@).len() <= usize::MAX / 8,
    ensures
        match decoded {
            Some(bytes) => base64_meaning(text@) == Some(bytes@),
            None => base64_meaning(text@) is None,
        },
        forall|bytes: Seq<u8>| #[trigger]
            base64(bytes) == text@ ==> decoded is Some && decoded->0@ == bytes,
{
    data_encoding::BASE64.decode(text.as_bytes()).ok()
}

/// `data_encoding::HEXLOWER.encode` writes the bytes in lower-case base16. It
/// may panic on more than `usize::MAX / 512` bytes.
#[verifier::external_body]
pub(crate) fn hex_encode(bytes: &[u8]) -> (text: String)
    requires
        bytes@.len() <= usize::MAX / 512,
    ensures
        text@ == hex(bytes@),
{
    data_encoding::HEXLOWER.encode(bytes)
}

/// `data_encoding::HEXLOWER.decode` gives the bytes whose lower-case base16
/// the text is, and an error when it is that of none. It may panic on a text
/// of more than `usize::MAX / 8` bytes.
#[verifier::external_body]
pub(crate) fn hex_decode(text: &str) -> (decoded: Option<Vec<u8>>)
    requires
        vstd::utf8::encode_utf8(text@).len() <= usize::MAX / 8,
    ensures
        decoded is Some ==> hex(decoded->0@) == text@,
        decoded is None ==> forall|bytes: Seq<u8>| #[trigger] hex(bytes) != text@,
{
    data_encoding::HEXLOWER.decode(text.as_bytes()).ok()
}

/// No two byte strings have the same base16.
pub proof fn lemma_hex_is_unique(a: Seq<u8>, b: Seq<u8>)
    requires
        hex(a) == hex(b),
    ensures
        a == b,
{
    assert(hex(a).len() == 2 * a.len());
    assert(hex(b).len() == 2 * b.len());
    assert forall|i: int| 0 <= i < a.len() implies a[i] == b[i] by {
        let x = a[i] as int;
        let y = b[i] as int;
        assert((2 * i) / 2 == i && (2 * i) % 2 == 0);
        assert((2 * i + 1) / 2 == i && (2 * i + 1) % 2 == 1);
        assert(hex(a)[2 * i] == hex_symbol(x / 16));
        assert(hex(b)[2 * i] == hex_symbol(y / 16));
        assert(hex(a)[2 * i + 1] == hex_symbol(x % 16));
        assert(hex(b)[2 * i + 1] == hex_symbol(y % 16));
        assert(x / 16 == y / 16 && x % 16 == y % 16);
    }
    assert(a =~= b);
}

/// What a byte is, from its bits.
proof fn lemma_byte_of_bits(n: u8)
    by (bit_vector)
    ensures
        n == 128 * ((n / 128) % 2) + 64 * ((n / 64) % 2) + 32 * ((n / 32) % 2) + 16 * ((n / 16)
            % 2) + 8 * ((n / 8) % 2) + 4 * ((n / 4) % 2) + 2 * ((n / 2) % 2) + (n % 2),
{
}

proof fn lemma_same_bit(a: Seq<u8>, b: Seq<u8>, k: int)
    requires
        a.len() == b.len(),
        base32(a) == base32(b),
        0 <= k < 8 * a.len(),
    ensures
        bit(a, k) == bit(b, k),
{
    let i = k / 5;
    assert(0 <= i < (8 * a.len() + 4) / 5);
    let x = 16 * bit(a, 5 * i) + 8 * bit(a, 5 * i + 1) + 4 * bit(a, 5 * i + 2) + 2 * bit(
        a,
        5 * i + 3,
    ) + bit(a, 5 * i + 4);
    let y = 16 * bit(b, 5 * i) + 8 * bit(b, 5 * i + 1) + 4 * bit(b, 5 * i + 2) + 2 * bit(
        b,
        5 * i + 3,
    ) + bit(b, 5 * i + 4);
    assert(base32(a)[i] == base32_symbol(x));
    assert(base32(b)[i] == base32_symbol(y));
    assert(0 <= x < 32 && 0 <= y < 32);
    assert(x == y);
    assert(k == 5 * i || k == 5 * i + 1 || k == 5 * i + 2 || k == 5 * i + 3 || k == 5 * i + 4);
}

/// No two byte strings have the same base32.
pub proof fn lemma_base32_is_unique(a: Seq<u8>, b: Seq<u8>)
    requires
        base32(a) == base32(b),
    ensures
        a == b,
{
    let n = a.len() as int;
    let m = b.len() as int;
    assert(base32(a).len() == (8 * n + 4) / 5);
    assert(base32(b).len() == (8 * m + 4) / 5);
    assert(n == m);
    assert forall|i: int| 0 <= i < a.len() implies a[i] == b[i] by {
        lemma_same_bit(a, b, 8 * i);
        lemma_same_bit(a, b, 8 * i + 1);
        lemma_same_bit(a, b, 8 * i + 2);
        lemma_same_bit(a, b, 8 * i + 3);
        lemma_same_bit(a, b, 8 * i + 4);
        lemma_same_bit(a, b, 8 * i + 5);
        lemma_same_bit(a, b, 8 * i + 6);
        lemma_same_bit(a, b, 8 * i + 7);
        lemma_byte_of_bits(a[i]);
        lemma_byte_of_bits(b[i]);
    }
    assert(a =~= b);
}

/// What a base16 digit in lower case is worth.
pub open spec fn hex_worth(c: char) -> int {
    if '0' <= c <= '9' {
        c as u32 - '0' as u32
    } else {
        c as u32 - 'a' as u32 + 10
    }
}

/// Base16 spells every byte in two digits, the higher first, each of them `0` to
/// `9` or `a` to `f`.
pub proof fn base16_spells_every_byte(bytes: Seq<u8>, i: int)
    requires
        0 <= i < bytes.len(),
    ensures
        hex(bytes).len() == 2 * bytes.len(),
        hex_worth(hex(bytes)[2 * i]) * 16 + hex_worth(hex(bytes)[2 * i + 1]) == bytes[i],
        '0' <= hex(bytes)[2 * i] <= '9' || 'a' <= hex(bytes)[2 * i] <= 'f',
        '0' <= hex(bytes)[2 * i + 1] <= '9' || 'a' <= hex(bytes)[2 * i + 1] <= 'f',
{
    assert((2 * i) / 2 == i && (2 * i) % 2 == 0);
    assert((2 * i + 1) / 2 == i && (2 * i + 1) % 2 == 1);
}


} // verus!
