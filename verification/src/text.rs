//! Text, read and written character by character.

use vstd::prelude::*;

verus! {

/// `String::push` appends the character to the end of the string, and does
/// nothing else.
pub assume_specification[ String::push ](s: &mut String, c: char)
    ensures
        final(s)@ == old(s)@.push(c),
;

/// `std::str::from_utf8` gives the text that the bytes encode, and an error
/// when they are no UTF-8.
#[verifier::external_body]
pub(crate) fn as_text(bytes: &[u8]) -> (t: Option<&str>)
    ensures
        match t {
            Some(t) => vstd::utf8::valid_utf8(bytes@) && t@ == vstd::utf8::decode_utf8(bytes@),
            None => !vstd::utf8::valid_utf8(bytes@),
        },
{
    std::str::from_utf8(bytes).ok()
}

/// The characters of a text.
pub fn chars_of(text: &str) -> (chars: Vec<char>)
    ensures
        chars@ == text@,
{
    let mut chars: Vec<char> = Vec::new();
    for c in it: text.chars()
        invariant
            chars@ == it.seq().take(it.index()),
    {
        chars.push(c);
        assert(chars@ =~= it.seq().take(it.index() + 1));
    }
    chars
}

/// The text made of some characters.
pub fn text_of(chars: &[char]) -> (text: String)
    ensures
        text@ == chars@,
{
    let mut text = String::new();
    let mut i: usize = 0;
    while i < chars.len()
        invariant
            i <= chars.len(),
            text@ == chars@.take(i as int),
        decreases chars.len() - i,
    {
        text.push(chars[i]);
        i += 1;
        assert(text@ =~= chars@.take(i as int));
    }
    assert(text@ =~= chars@);
    text
}

/// Whether two texts are the same.
pub fn same(a: &str, b: &str) -> (r: bool)
    ensures
        r == (a@ == b@),
{
    a.to_owned() == b.to_owned()
}

/// A letter of the English alphabet in lower case, any other character as
/// it is.
pub open spec fn lower(c: char) -> char {
    if 'A' <= c <= 'Z' {
        (c as u32 + 32) as char
    } else {
        c
    }
}

/// A text with its English letters in lower case.
pub open spec fn lowered(text: Seq<char>) -> Seq<char> {
    text.map_values(|c: char| lower(c))
}

/// Whether two texts are the same but for the case of English letters.
pub open spec fn same_but_case(a: Seq<char>, b: Seq<char>) -> bool {
    &&& a.len() == b.len()
    &&& forall|i: int| 0 <= i < a.len() ==> lower(#[trigger] a[i]) == lower(b[i])
}

/// A letter of the English alphabet in lower case, any other character as it
/// is.
fn lower_char(c: char) -> (l: char)
    ensures
        l == lower(c),
{
    if 'A' <= c && c <= 'Z' {
        (c as u8 + 32) as char
    } else {
        c
    }
}

/// The characters of a text, its English letters in lower case.
pub fn lower_chars(text: &str) -> (chars: Vec<char>)
    ensures
        chars@ == lowered(text@),
{
    let mut chars: Vec<char> = Vec::new();
    for c in it: text.chars()
        invariant
            chars@ == lowered(it.seq().take(it.index())),
    {
        chars.push(lower_char(c));
        assert(it.seq().take(it.index() + 1) =~= it.seq().take(it.index()).push(c));
        assert(chars@ =~= lowered(it.seq().take(it.index() + 1)));
    }
    chars
}

/// The number of a character once in lower case.
fn lower_code(c: char) -> (code: u32)
    ensures
        code == lower(c) as u32,
{
    if 'A' <= c && c <= 'Z' {
        c as u32 + 32
    } else {
        c as u32
    }
}

/// Whether two texts are the same, the case of English letters aside.
pub fn eq_ignore_ascii_case(a: &str, b: &str) -> (r: bool)
    ensures
        r == same_but_case(a@, b@),
{
    let left = chars_of(a);
    let right = chars_of(b);
    if left.len() != right.len() {
        return false;
    }
    let mut i: usize = 0;
    while i < left.len()
        invariant
            i <= left.len(),
            left.len() == right.len(),
            left@ == a@,
            right@ == b@,
            forall|j: int| 0 <= j < i ==> lower(#[trigger] a@[j]) == lower(b@[j]),
        decreases left.len() - i,
    {
        if lower_code(left[i]) != lower_code(right[i]) {
            assert(lower(a@[i as int]) != lower(b@[i as int]));
            return false;
        }
        i += 1;
    }
    true
}

/// Whether a text begins with another.
pub fn starts_with(text: &str, prefix: &str) -> (r: bool)
    ensures
        r == prefix@.is_prefix_of(text@),
{
    let whole = chars_of(text);
    let head = chars_of(prefix);
    if head.len() > whole.len() {
        return false;
    }
    let mut i: usize = 0;
    while i < head.len()
        invariant
            i <= head.len() <= whole.len(),
            whole@ == text@,
            head@ == prefix@,
            forall|j: int| 0 <= j < i ==> prefix@[j] == #[trigger] text@[j],
        decreases head.len() - i,
    {
        if head[i] != whole[i] {
            assert(prefix@[i as int] != text@.subrange(0, prefix@.len() as int)[i as int]);
            return false;
        }
        i += 1;
    }
    assert(prefix@ =~= text@.subrange(0, prefix@.len() as int));
    true
}

/// Whether a character occurs in a text.
pub fn contains_char(text: &str, wanted: char) -> (r: bool)
    ensures
        r == text@.contains(wanted),
{
    let chars = chars_of(text);
    let mut i: usize = 0;
    while i < chars.len()
        invariant
            i <= chars.len(),
            chars@ == text@,
            forall|j: int| 0 <= j < i ==> #[trigger] text@[j] != wanted,
        decreases chars.len() - i,
    {
        if chars[i] == wanted {
            assert(text@[i as int] == wanted);
            return true;
        }
        i += 1;
    }
    false
}

/// Whether a character is a control character: the general category `Cc`.
pub open spec fn control(c: char) -> bool {
    c as u32 <= 0x1f || 0x7f <= c as u32 <= 0x9f
}

/// Whether a character is a control character.
pub fn is_control(c: char) -> (r: bool)
    ensures
        r == control(c),
{
    let code: u32 = c as u32;
    code <= 0x1f || (0x7f <= code && code <= 0x9f)
}

/// The digit that stands for a number below ten.
pub open spec fn digit(n: int) -> char {
    (48 + n) as char
}

/// A number in decimal, without leading zeros.
pub open spec fn decimal_digits(n: nat) -> Seq<char>
    decreases n,
{
    if n < 10 {
        seq![digit(n as int)]
    } else {
        decimal_digits(n / 10).push(digit((n % 10) as int))
    }
}

/// How many numbers `n` decimal digits can write.
pub open spec fn decimal_span(n: nat) -> nat
    decreases n,
{
    if n == 0 {
        1
    } else {
        10 * decimal_span((n - 1) as nat)
    }
}

proof fn lemma_decimal_len_below(value: nat, n: nat)
    requires
        n > 0,
        value < decimal_span(n),
    ensures
        0 < decimal_digits(value).len() <= n,
    decreases n,
{
    if value >= 10 {
        if n == 1 {
            reveal_with_fuel(decimal_span, 2);
        } else {
            lemma_decimal_len_below(value / 10, (n - 1) as nat);
        }
    }
}

/// A number of sixty-four bits takes at most twenty digits.
pub proof fn lemma_decimal_len(value: nat, n: nat)
    requires
        n == 20,
        value <= u64::MAX,
    ensures
        0 < decimal_digits(value).len() <= n,
{
    reveal_with_fuel(decimal_span, 21);
    lemma_decimal_len_below(value, 20);
}

/// The digit that stands for a number below ten.
fn digit_char(n: u8) -> (c: char)
    requires
        n < 10,
    ensures
        c == digit(n as int),
{
    (48 + n) as char
}

/// Writes a number in decimal, without leading zeros.
pub fn decimal(n: u128) -> (text: String)
    ensures
        text@ == decimal_digits(n as nat),
    decreases n,
{
    if n < 10 {
        let mut text = String::new();
        text.push(digit_char(n as u8));
        assert(text@ =~= decimal_digits(n as nat));
        text
    } else {
        let mut text = decimal(n / 10);
        text.push(digit_char((n % 10) as u8));
        text
    }
}

/// Whether a text comes before another, compared character by character. It
/// is the order of their UTF-8 bytes too.
pub open spec fn before(a: Seq<char>, b: Seq<char>) -> bool
    decreases a.len(),
{
    if b.len() == 0 {
        false
    } else if a.len() == 0 {
        true
    } else if a[0] == b[0] {
        before(a.skip(1), b.skip(1))
    } else {
        a[0] < b[0]
    }
}

/// No text comes before itself, and of two texts one comes before the other
/// unless they are the same.
pub proof fn lemma_before_is_total(a: Seq<char>, b: Seq<char>)
    ensures
        !before(a, a),
        before(a, b) || a == b || before(b, a),
        !(before(a, b) && before(b, a)),
    decreases a.len(),
{
    if a.len() > 0 {
        lemma_before_is_total(a.skip(1), b.skip(1));
        if b.len() > 0 && a[0] == b[0] && a.skip(1) == b.skip(1) {
            assert(a =~= seq![a[0]] + a.skip(1));
            assert(b =~= seq![b[0]] + b.skip(1));
        }
    } else if b.len() == 0 {
        assert(a =~= b);
    }
}

/// What comes before something that comes before a text comes before the
/// text.
pub proof fn lemma_before_is_transitive(a: Seq<char>, b: Seq<char>, c: Seq<char>)
    requires
        before(a, b),
        before(b, c),
    ensures
        before(a, c),
    decreases a.len(),
{
    if a.len() > 0 && a[0] == b[0] && b[0] == c[0] {
        lemma_before_is_transitive(a.skip(1), b.skip(1), c.skip(1));
    }
}

/// Whether a text comes before another.
pub fn is_before(a: &[char], b: &[char]) -> (r: bool)
    ensures
        r == before(a@, b@),
{
    let mut i: usize = 0;
    assert(a@.skip(0) =~= a@ && b@.skip(0) =~= b@);
    while i < a.len() && i < b.len()
        invariant
            i <= a.len(),
            i <= b.len(),
            before(a@, b@) == before(a@.skip(i as int), b@.skip(i as int)),
        decreases a.len() - i,
    {
        if a[i] != b[i] {
            return a[i] < b[i];
        }
        assert(a@.skip(i as int).skip(1) =~= a@.skip(i + 1));
        assert(b@.skip(i as int).skip(1) =~= b@.skip(i + 1));
        i += 1;
    }
    i < b.len()
}

/// The number that some decimal digits spell.
pub open spec fn number_of(digits: Seq<char>) -> int
    decreases digits.len(),
{
    if digits.len() == 0 {
        0
    } else {
        10 * number_of(digits.drop_last()) + (digits.last() as u32 - '0' as u32)
    }
}

/// A number is written in the digits that spell it, without a zero in front but
/// for zero itself; so no two numbers are written alike.
pub proof fn numbers_are_written_as_they_are_read(n: nat, m: nat)
    ensures
        decimal_digits(n).len() > 0,
        number_of(decimal_digits(n)) == n,
        forall|i: int|
            0 <= i < decimal_digits(n).len() ==> '0' <= #[trigger] decimal_digits(n)[i] <= '9',
        n > 0 ==> decimal_digits(n)[0] != '0',
        decimal_digits(n) == decimal_digits(m) ==> n == m,
{
    lemma_written(n);
    lemma_written(m);
}

proof fn lemma_written(n: nat)
    ensures
        decimal_digits(n).len() > 0,
        number_of(decimal_digits(n)) == n,
        forall|i: int|
            0 <= i < decimal_digits(n).len() ==> '0' <= #[trigger] decimal_digits(n)[i] <= '9',
        n > 0 ==> decimal_digits(n)[0] != '0',
    decreases n,
{
    let all = decimal_digits(n);
    if n < 10 {
        assert(all.drop_last() =~= Seq::<char>::empty());
        assert(number_of(all.drop_last()) == 0);
        assert(all.last() == digit(n as int));
    } else {
        lemma_written(n / 10);
        let head = decimal_digits(n / 10);
        assert(all.drop_last() =~= head);
        assert(all.last() == digit((n % 10) as int));
        assert(all[0] == head[0]);
    }
}

/// The control characters are the first thirty-two, and those from the last
/// below a hundred and twenty-eight up to a hundred and sixty; and no other
/// character is one.
pub proof fn what_is_a_control_character(c: char)
    ensures
        control(c) <==> (c as u32) < 32 || 127 <= c as u32 && (c as u32) < 160,
{
}

/// Case is the only difference that does not count: a letter of the English
/// alphabet is the same as the one thirty-two before it or after it, and every
/// other character only as itself; a text is the same as itself, and the same as
/// another when that is the same as it.
pub proof fn only_case_makes_no_difference(a: Seq<char>, b: Seq<char>, c: char, d: char)
    ensures
        lower(c) == lower(d) <==> c == d || ('A' <= c <= 'Z' && d as u32 == c as u32 + 32) || ('A'
            <= d <= 'Z' && c as u32 == d as u32 + 32),
        same_but_case(a, a),
        same_but_case(a, b) == same_but_case(b, a),
        same_but_case(a, b) ==> lowered(a) == lowered(b),
        lowered(a) == lowered(b) ==> same_but_case(a, b),
{
    if same_but_case(a, b) {
        assert(lowered(a) =~= lowered(b));
        assert forall|i: int| 0 <= i < b.len() implies lower(#[trigger] b[i]) == lower(a[i]) by {
            assert(lower(a[i]) == lower(b[i]));
        }
    }
    if same_but_case(b, a) {
        assert forall|i: int| 0 <= i < a.len() implies lower(#[trigger] a[i]) == lower(b[i]) by {
            assert(lower(b[i]) == lower(a[i]));
        }
    }
    if lowered(a) == lowered(b) {
        assert(lowered(a).len() == lowered(b).len());
        assert forall|i: int| 0 <= i < a.len() implies lower(#[trigger] a[i]) == lower(b[i]) by {
            assert(lowered(a)[i] == lowered(b)[i]);
        }
    }
}

/// Texts are ordered as words are in a dictionary: by the first character in
/// which they differ, and one that another goes on from comes before it.
pub proof fn texts_are_ordered_as_in_a_dictionary(
    start: Seq<char>,
    a: Seq<char>,
    b: Seq<char>,
)
    requires
        a.len() > 0,
        b.len() > 0,
        a[0] != b[0],
    ensures
        before(start + a, start + b) <==> a[0] < b[0],
        before(start, start + a),
        !before(start + a, start),
        !before(start, start),
    decreases start.len(),
{
    if start.len() == 0 {
        assert(start + a =~= a);
        assert(start + b =~= b);
    } else {
        let rest = start.skip(1);
        texts_are_ordered_as_in_a_dictionary(rest, a, b);
        assert((start + a).skip(1) =~= rest + a);
        assert((start + b).skip(1) =~= rest + b);
    }
}


} // verus!
