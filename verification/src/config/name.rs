//! Names a person gives, and text from elsewhere made safe to print.

use crate::text;
use vstd::prelude::*;

verus! {

/// How long a name may be, in characters.
pub const MAX_NAME_LEN: usize = 64;

/// How much of a text from elsewhere is shown, in characters.
pub const MAX_SHOWN_LEN: usize = 256;

/// What stands for a character that must not reach a terminal.
pub open spec fn shown(c: char) -> char {
    if text::control(c) {
        '?'
    } else {
        c
    }
}

/// A text with its control characters taken out: a question mark stands for
/// each.
pub open spec fn sanitized(t: Seq<char>) -> Seq<char> {
    t.map_values(|c: char| shown(c))
}

/// The characters of a text, made safe to print.
pub fn sanitize_chars(chars: &[char]) -> (clean: Vec<char>)
    ensures
        clean@ == sanitized(chars@),
{
    let mut clean: Vec<char> = Vec::new();
    let mut i: usize = 0;
    while i < chars.len()
        invariant
            i <= chars.len(),
            clean@ == sanitized(chars@.take(i as int)),
        decreases chars.len() - i,
    {
        let c = chars[i];
        clean.push(
            if text::is_control(c) {
                '?'
            } else {
                c
            },
        );
        i += 1;
        assert(clean@ =~= sanitized(chars@.take(i as int)));
    }
    assert(chars@.take(i as int) =~= chars@);
    clean
}

/// Makes text from elsewhere safe to print: an escape sequence in it cannot
/// reach the terminal.
pub fn sanitize(t: &str) -> (clean: String)
    ensures
        clean@ == sanitized(t@),
{
    let chars = text::chars_of(t);
    let clean = sanitize_chars(chars.as_slice());
    text::text_of(clean.as_slice())
}

/// As much of a text as is shown.
pub open spec fn bounded(t: Seq<char>) -> Seq<char> {
    if t.len() > MAX_SHOWN_LEN {
        t.take(MAX_SHOWN_LEN as int)
    } else {
        t
    }
}

/// Makes text from elsewhere safe to print, and no longer than is worth
/// printing.
pub fn sanitize_bounded(t: &str) -> (clean: String)
    ensures
        clean@ == sanitized(bounded(t@)),
{
    let mut chars = text::chars_of(t);
    if chars.len() > MAX_SHOWN_LEN {
        chars.truncate(MAX_SHOWN_LEN);
        assert(chars@ =~= bounded(t@));
    }
    let clean = sanitize_chars(chars.as_slice());
    text::text_of(clean.as_slice())
}

/// Why a name is refused.
#[derive(Clone, Copy, Debug, PartialEq, Eq, Structural)]
pub enum NameError {
    Empty,
    /// It is longer than [`MAX_NAME_LEN`].
    TooLong,
    /// It holds a control character.
    Control,
}

/// Why a name is refused, if it is.
pub open spec fn name_refusal(name: Seq<char>) -> Option<NameError> {
    if name.len() == 0 {
        Some(NameError::Empty)
    } else if name.len() > MAX_NAME_LEN {
        Some(NameError::TooLong)
    } else if exists|i: int| 0 <= i < name.len() && text::control(#[trigger] name[i]) {
        Some(NameError::Control)
    } else {
        None
    }
}

/// Checks a name before it is stored and shown on every machine.
pub fn validate_name(name: &str) -> (result: Result<(), NameError>)
    ensures
        match result {
            Ok(_) => name_refusal(name@) is None,
            Err(error) => name_refusal(name@) == Some(error),
        },
{
    let chars = text::chars_of(name);
    if chars.len() == 0 {
        return Err(NameError::Empty);
    }
    if chars.len() > MAX_NAME_LEN {
        return Err(NameError::TooLong);
    }
    let mut i: usize = 0;
    while i < chars.len()
        invariant
            i <= chars.len(),
            0 < chars@.len() <= MAX_NAME_LEN,
            chars@ == name@,
            forall|j: int| 0 <= j < i ==> !text::control(#[trigger] name@[j]),
        decreases chars.len() - i,
    {
        if text::is_control(chars[i]) {
            assert(text::control(name@[i as int]));
            return Err(NameError::Control);
        }
        i += 1;
    }
    Ok(())
}

/// No control character is left in a text made safe to print, whatever it
/// held.
pub proof fn what_is_shown_is_safe(t: Seq<char>, i: int)
    requires
        0 <= i < t.len(),
    ensures
        !text::control(sanitized(t)[i]),
{
}

} // verus!
