//! Names of thirty-two bytes.
//!
//! A machine is named by its public key and some content by its hash. Both
//! are thirty-two bytes, ordered as bytes are, first byte first: the order
//! of the numbers they spell, most significant byte first.

use crate::ordmap::{Place, Ranked};
use vstd::prelude::*;

verus! {

/// Thirty-two bytes, as the number they spell.
#[derive(Clone, Copy, Debug, PartialEq, Eq, Structural)]
pub struct Word {
    /// The number the first sixteen bytes spell.
    pub high: u128,
    /// The number the last sixteen bytes spell.
    pub low: u128,
}

/// The number some bytes spell, most significant first.
pub open spec fn number(bytes: Seq<u8>) -> nat
    decreases bytes.len(),
{
    if bytes.len() == 0 {
        0
    } else {
        number(bytes.drop_last()) * 256 + bytes.last() as nat
    }
}

/// The `n` bytes that spell a number, most significant first.
pub open spec fn spelled(value: nat, n: nat) -> Seq<u8>
    decreases n,
{
    if n == 0 {
        Seq::empty()
    } else {
        spelled(value / 256, (n - 1) as nat).push((value % 256) as u8)
    }
}

/// How many numbers `n` bytes can spell.
pub open spec fn span(n: nat) -> nat
    decreases n,
{
    if n == 0 {
        1
    } else {
        256 * span((n - 1) as nat)
    }
}

/// Two to the power of one hundred and twenty-eight: what sixteen bytes span.
pub open spec fn half_span() -> int {
    0x1_0000_0000_0000_0000_0000_0000_0000_0000int
}

proof fn lemma_half_span()
    ensures
        span(16) == half_span(),
{
    reveal_with_fuel(span, 17);
}

proof fn lemma_span_grows(a: nat, b: nat)
    requires
        a <= b,
    ensures
        1 <= span(a) <= span(b),
    decreases b,
{
    if a < b {
        lemma_span_grows(a, (b - 1) as nat);
    } else if a > 0 {
        lemma_span_grows((a - 1) as nat, (a - 1) as nat);
    }
}

proof fn lemma_number_bound(bytes: Seq<u8>)
    ensures
        number(bytes) < span(bytes.len()),
    decreases bytes.len(),
{
    if bytes.len() > 0 {
        lemma_number_bound(bytes.drop_last());
    }
}

/// Spelling a number and reading it back gives the number.
pub proof fn lemma_number_of_spelled(value: nat, n: nat)
    requires
        value < span(n),
    ensures
        number(spelled(value, n)) == value,
        spelled(value, n).len() == n,
    decreases n,
{
    if n > 0 {
        lemma_number_of_spelled(value / 256, (n - 1) as nat);
        assert(spelled(value, n).drop_last() =~= spelled(value / 256, (n - 1) as nat));
    }
}

/// Reading some bytes as a number and spelling it gives the bytes.
pub proof fn lemma_spelled_of_number(bytes: Seq<u8>)
    ensures
        spelled(number(bytes), bytes.len()) == bytes,
    decreases bytes.len(),
{
    if bytes.len() == 0 {
        assert(spelled(number(bytes), 0) =~= bytes);
    } else {
        lemma_spelled_of_number(bytes.drop_last());
        let value = number(bytes);
        assert(value / 256 == number(bytes.drop_last()));
        assert((value % 256) as u8 == bytes.last());
        assert(spelled(value, bytes.len()) =~= bytes);
    }
}

/// Reads sixteen bytes as the number they spell.
fn read_half(bytes: &[u8; 32], from: usize) -> (value: u128)
    requires
        from <= 16,
    ensures
        value == number(bytes@.subrange(from as int, from + 16)),
{
    let mut value: u128 = 0;
    let mut i: usize = 0;
    proof {
        lemma_half_span();
    }
    assert(bytes@.subrange(from as int, from as int) =~= Seq::<u8>::empty());
    while i < 16
        invariant
            i <= 16,
            from <= 16,
            value == number(bytes@.subrange(from as int, from + i)),
            span(16) == half_span(),
        decreases 16 - i,
    {
        let ghost read = bytes@.subrange(from as int, from + i);
        let ghost more = bytes@.subrange(from as int, from + i + 1);
        assert(more.drop_last() =~= read);
        proof {
            lemma_number_bound(more);
            lemma_span_grows((i + 1) as nat, 16);
        }
        value = value * 256 + bytes[from + i] as u128;
        i += 1;
    }
    value
}

/// Spells a number in some bytes at the end of a buffer.
fn spell(value: u128, n: usize, out: &mut Vec<u8>)
    ensures
        final(out)@ == old(out)@ + spelled(value as nat, n as nat),
    decreases n,
{
    if n == 0 {
        assert(out@ =~= old(out)@ + spelled(value as nat, 0));
    } else {
        spell(value / 256, n - 1, out);
        out.push((value % 256) as u8);
        assert(out@ =~= old(out)@ + spelled(value as nat, n as nat));
    }
}

impl Word {
    /// The thirty-two bytes.
    pub open spec fn bytes(self) -> Seq<u8> {
        spelled(self.high as nat, 16) + spelled(self.low as nat, 16)
    }

    /// There are thirty-two bytes, and they say which word it is.
    pub proof fn lemma_bytes(self)
        ensures
            self.bytes().len() == 32,
            self.high == number(self.bytes().subrange(0, 16)),
            self.low == number(self.bytes().subrange(16, 32)),
    {
        lemma_half_span();
        lemma_number_of_spelled(self.high as nat, 16);
        lemma_number_of_spelled(self.low as nat, 16);
        assert(self.bytes().subrange(0, 16) =~= spelled(self.high as nat, 16));
        assert(self.bytes().subrange(16, 32) =~= spelled(self.low as nat, 16));
    }

    /// Takes thirty-two bytes.
    pub fn from_bytes(bytes: &[u8; 32]) -> (word: Word)
        ensures
            word.bytes() == bytes@,
    {
        let word = Word { high: read_half(bytes, 0), low: read_half(bytes, 16) };
        proof {
            lemma_spelled_of_number(bytes@.subrange(0, 16));
            lemma_spelled_of_number(bytes@.subrange(16, 32));
            assert(bytes@.subrange(0, 16) + bytes@.subrange(16, 32) =~= bytes@);
        }
        word
    }

    /// Gives the thirty-two bytes back.
    pub fn to_bytes(&self) -> (bytes: [u8; 32])
        ensures
            bytes@ == self.bytes(),
    {
        let mut list: Vec<u8> = Vec::new();
        spell(self.high, 16, &mut list);
        spell(self.low, 16, &mut list);
        assert(list@ =~= self.bytes());
        proof {
            self.lemma_bytes();
        }
        let mut bytes: [u8; 32] = [0u8;32];
        let mut i: usize = 0;
        while i < 32
            invariant
                i <= 32,
                list@.len() == 32,
                list@ == self.bytes(),
                forall|j: int| 0 <= j < i ==> #[trigger] bytes@[j] == list@[j],
            decreases 32 - i,
        {
            bytes[i] = list[i];
            i += 1;
        }
        assert(bytes@ =~= self.bytes());
        bytes
    }

    /// Two words with the same bytes are the same word.
    pub proof fn lemma_bytes_name_the_word(a: Word, b: Word)
        requires
            a.bytes() == b.bytes(),
        ensures
            a == b,
    {
        a.lemma_bytes();
        b.lemma_bytes();
    }
}

impl Ranked for Word {
    open spec fn rank(self) -> int {
        self.high * half_span() + self.low
    }

    proof fn rank_is_unique(a: Self, b: Self) {
    }

    fn place(&self, other: &Self) -> (place: Place) {
        if self.high < other.high || (self.high == other.high && self.low < other.low) {
            Place::Before
        } else if self.high == other.high && self.low == other.low {
            Place::Same
        } else {
            Place::After
        }
    }
}

/// Whether some bytes come before others of the same length, compared first
/// byte first.
pub open spec fn bytes_before(a: Seq<u8>, b: Seq<u8>) -> bool {
    exists|i: int|
        0 <= i < a.len() && a.subrange(0, i) == b.subrange(0, i) && #[trigger] a[i] < b[i]
}

proof fn lemma_number_order(a: Seq<u8>, b: Seq<u8>)
    requires
        a.len() == b.len(),
        bytes_before(a, b),
    ensures
        number(a) < number(b),
    decreases a.len(),
{
    let i = choose|i: int|
        0 <= i < a.len() && a.subrange(0, i) == b.subrange(0, i) && #[trigger] a[i] < b[i];
    let c = a.drop_last();
    let d = b.drop_last();
    if i == a.len() - 1 {
        assert(c =~= a.subrange(0, i));
        assert(d =~= b.subrange(0, i));
    } else {
        assert(c.subrange(0, i) =~= a.subrange(0, i));
        assert(d.subrange(0, i) =~= b.subrange(0, i));
        assert(c[i] < d[i]);
        lemma_number_order(c, d);
    }
}

/// Words are in the order of their bytes, compared first byte first.
pub proof fn words_are_ordered_as_their_bytes(a: Word, b: Word)
    requires
        bytes_before(a.bytes(), b.bytes()),
    ensures
        a.rank() < b.rank(),
{
    a.lemma_bytes();
    b.lemma_bytes();
    let x = a.bytes();
    let y = b.bytes();
    let i = choose|i: int|
        0 <= i < x.len() && x.subrange(0, i) == y.subrange(0, i) && #[trigger] x[i] < y[i];
    if i < 16 {
        let c = x.subrange(0, 16);
        let d = y.subrange(0, 16);
        assert(c.subrange(0, i) =~= x.subrange(0, i));
        assert(d.subrange(0, i) =~= y.subrange(0, i));
        assert(c[i] < d[i]);
        lemma_number_order(c, d);
    } else {
        assert(x.subrange(0, 16) =~= x.subrange(0, i).subrange(0, 16));
        assert(y.subrange(0, 16) =~= y.subrange(0, i).subrange(0, 16));
        let c = x.subrange(16, 32);
        let d = y.subrange(16, 32);
        assert(c.subrange(0, i - 16) =~= x.subrange(0, i).subrange(16, i));
        assert(d.subrange(0, i - 16) =~= y.subrange(0, i).subrange(16, i));
        assert(c[i - 16] < d[i - 16]);
        lemma_number_order(c, d);
    }
}

} // verus!
