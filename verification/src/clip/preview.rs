//! One line describing an entry, safe to print.

use crate::clip::mime;
use crate::config::name;
use crate::config::name::sanitize_chars;
use crate::files;
use crate::text;
use vstd::prelude::*;

verus! {

/// How much of an entry is kept for the preview shown by `yank list`.
pub const PREVIEW_CHARS: usize = 72;

/// Some bytes as text, whatever is not UTF-8 in them replaced.
pub uninterp spec fn lossy_text(bytes: Seq<u8>) -> Seq<char>;

/// `String::from_utf8_lossy` reads the bytes as UTF-8, and replaces what is
/// not.
#[verifier::external_body]
pub(crate) fn from_utf8_lossy(bytes: &[u8]) -> (t: String)
    ensures
        t@ == lossy_text(bytes@),
        vstd::utf8::valid_utf8(bytes@) ==> t@ == vstd::utf8::decode_utf8(bytes@),
{
    String::from_utf8_lossy(bytes).into_owned()
}

/// A number of bytes the way a person writes it.
pub uninterp spec fn size_text(bytes: u64) -> Seq<char>;

/// `bytesize::ByteSize` displays a number of bytes in the unit that suits it:
/// below a kibibyte, the bytes themselves.
#[verifier::external_body]
pub(crate) fn byte_size(bytes: u64) -> (t: String)
    ensures
        t@ == size_text(bytes),
        bytes < 1024 ==> t@ == text::decimal_digits(bytes as nat) + seq![' ', 'B'],
{
    bytesize::ByteSize::b(bytes).to_string()
}

/// Whether a character is white space.
pub open spec fn space(c: char) -> bool {
    let code = c as u32;
    ||| 0x09 <= code <= 0x0d
    ||| code == 0x20
    ||| code == 0x85
    ||| code == 0xa0
    ||| code == 0x1680
    ||| 0x2000 <= code <= 0x200a
    ||| code == 0x2028
    ||| code == 0x2029
    ||| code == 0x202f
    ||| code == 0x205f
    ||| code == 0x3000
}

/// Whether a character is white space.
fn is_space(c: char) -> (r: bool)
    ensures
        r == space(c),
{
    let code: u32 = c as u32;
    (0x09 <= code && code <= 0x0d) || code == 0x20 || code == 0x85 || code == 0xa0 || code == 0x1680
        || (0x2000 <= code && code <= 0x200a) || code == 0x2028 || code == 0x2029 || code == 0x202f
        || code == 0x205f || code == 0x3000
}

/// A text without the white space it begins with.
pub open spec fn trimmed_start(t: Seq<char>) -> Seq<char>
    decreases t.len(),
{
    if t.len() > 0 && space(t[0]) {
        trimmed_start(t.skip(1))
    } else {
        t
    }
}

/// A text without the white space it ends with.
pub open spec fn trimmed_end(t: Seq<char>) -> Seq<char>
    decreases t.len(),
{
    if t.len() > 0 && space(t.last()) {
        trimmed_end(t.drop_last())
    } else {
        t
    }
}

/// A text without the white space around it.
pub open spec fn trimmed(t: Seq<char>) -> Seq<char> {
    trimmed_end(trimmed_start(t))
}

/// The lines among some that are not blank, without the white space around
/// them.
pub open spec fn written(lines: Seq<Seq<char>>) -> Seq<Seq<char>>
    decreases lines.len(),
{
    if lines.len() == 0 {
        Seq::empty()
    } else if trimmed(lines.last()).len() == 0 {
        written(lines.drop_last())
    } else {
        written(lines.drop_last()).push(trimmed(lines.last()))
    }
}

/// A line cut to what a preview shows of it.
pub open spec fn shortened(line: Seq<char>) -> Seq<char> {
    if line.len() > PREVIEW_CHARS {
        line.take(PREVIEW_CHARS as int).push('…')
    } else {
        line
    }
}

/// The preview of a text: its first line that is not blank, safe to print, and
/// a mark when there are more.
pub open spec fn text_preview(t: Seq<char>) -> Seq<char> {
    let lines = written(files::parts(t, '\n'));
    let line = shortened(
        name::sanitized(
            if lines.len() > 0 {
                lines[0]
            } else {
                Seq::empty()
            },
        ),
    );
    if lines.len() > 1 {
        line + seq![' ', '⏎']
    } else {
        line
    }
}

/// One line describing an entry: what is in it when it is text, its type and
/// size when it is not, and neither when it is secret.
pub open spec fn preview_of(mime: Seq<char>, bytes: Seq<u8>, secret: bool) -> Seq<char> {
    if secret {
        "<secret>"@
    } else if !mime::textual(mime) {
        seq!['<'] + mime + seq![',', ' '] + size_text(bytes.len() as u64) + seq!['>']
    } else {
        text_preview(lossy_text(bytes))
    }
}

/// A text without the white space around it.
pub fn trim(t: &[char]) -> (kept: Vec<char>)
    ensures
        kept@ == trimmed(t@),
{
    let mut start: usize = 0;
    assert(t@.skip(0) =~= t@);
    while start < t.len() && is_space(t[start])
        invariant
            start <= t.len(),
            trimmed_start(t@) == trimmed_start(t@.skip(start as int)),
        decreases t.len() - start,
    {
        assert(t@.skip(start as int).skip(1) =~= t@.skip(start + 1));
        start += 1;
    }
    let ghost rest = t@.skip(start as int);
    assert(trimmed_start(t@) == rest);
    let mut end: usize = t.len();
    assert(t@.subrange(start as int, end as int) =~= rest);
    while end > start && is_space(t[end - 1])
        invariant
            start <= end <= t.len(),
            trimmed_end(rest) == trimmed_end(t@.subrange(start as int, end as int)),
        decreases end,
    {
        assert(t@.subrange(start as int, end as int).drop_last() =~= t@.subrange(
            start as int,
            end - 1,
        ));
        end -= 1;
    }
    let kept = vstd::slice::slice_to_vec(vstd::slice::slice_subrange(t, start, end));
    assert(kept@ =~= trimmed(t@));
    kept
}

/// What is worth a look among the lines of a text: the first that is not
/// blank, and how many are not, as far as two.
fn skim(chars: &Vec<char>) -> (r: (Vec<char>, bool))
    ensures
        ({
            let lines = written(files::parts(chars@, '\n'));
            &&& r.0@ == (if lines.len() > 0 {
                lines[0]
            } else {
                Seq::empty()
            })
            &&& r.1 == (lines.len() > 1)
        }),
{
    let mut first: Vec<char> = Vec::new();
    let mut count: usize = 0;
    let mut line: Vec<char> = Vec::new();
    let ghost mut done: Seq<Seq<char>> = Seq::empty();
    let mut i: usize = 0;
    assert(done.push(line@) =~= files::parts(chars@.take(0), '\n'));
    while i < chars.len()
        invariant
            i <= chars.len(),
            done.push(line@) == files::parts(chars@.take(i as int), '\n'),
            seen(written(done), first@, count as int),
        decreases chars.len() - i,
    {
        let c = chars[i];
        assert(chars@.take(i + 1).drop_last() =~= chars@.take(i as int));
        if c == '\n' {
            proof {
                assert(done.push(line@).drop_last() =~= done);
            }
            note(Ghost(written(done)), &mut first, &mut count, line.as_slice());
            proof {
                done = done.push(line@);
            }
            line = Vec::new();
        } else {
            let ghost had = line@;
            line.push(c);
            assert(done.push(had).update(done.push(had).len() - 1, had.push(c)) =~= done.push(
                line@,
            ));
        }
        i += 1;
    }
    assert(chars@.take(i as int) =~= chars@);
    proof {
        assert(done.push(line@).drop_last() =~= done);
    }
    note(Ghost(written(done)), &mut first, &mut count, line.as_slice());
    (first, count > 1)
}

/// Whether what was kept of some lines is the first of them and their number,
/// as far as two.
pub open spec fn seen(lines: Seq<Seq<char>>, first: Seq<char>, count: int) -> bool {
    &&& count == (if lines.len() > 2 {
        2
    } else {
        lines.len() as int
    })
    &&& first == (if lines.len() > 0 {
        lines[0]
    } else {
        Seq::empty()
    })
}

/// Takes one more line into account.
fn note(
    Ghost(lines): Ghost<Seq<Seq<char>>>,
    first: &mut Vec<char>,
    count: &mut usize,
    line: &[char],
)
    requires
        seen(lines, old(first)@, *old(count) as int),
    ensures
        seen(
            if trimmed(line@).len() == 0 {
                lines
            } else {
                lines.push(trimmed(line@))
            },
            final(first)@,
            *final(count) as int,
        ),
{
    let kept = trim(line);
    if kept.len() > 0 {
        if *count == 0 {
            *first = kept;
        }
        if *count < 2 {
            *count = *count + 1;
        }
    }
}

/// The first line of a text that is not blank, safe to print, and a mark when
/// there are more.
pub fn preview_text(t: &str) -> (line: String)
    ensures
        line@ == text_preview(t@),
{
    let chars = text::chars_of(t);
    let (first, more) = skim(&chars);
    let mut line = sanitize_chars(first.as_slice());
    if line.len() > PREVIEW_CHARS {
        line.truncate(PREVIEW_CHARS);
        line.push('…');
        assert(line@ =~= shortened(name::sanitized(first@)));
    }
    if more {
        line.push(' ');
        line.push('⏎');
    }
    assert(line@ =~= text_preview(t@));
    text::text_of(line.as_slice())
}

/// One line describing an entry, safe to print.
pub fn preview(mime: &str, bytes: &[u8], secret: bool) -> (line: String)
    ensures
        line@ == preview_of(mime@, bytes@, secret),
        !secret && mime::textual(mime@) && vstd::utf8::valid_utf8(bytes@) ==> line@
            == text_preview(vstd::utf8::decode_utf8(bytes@)),
        !secret && !mime::textual(mime@) && bytes@.len() < 1024 ==> line@ == seq!['<'] + mime@
            + seq![',', ' '] + text::decimal_digits(bytes@.len()) + seq![' ', 'B', '>'],
{
    if secret {
        return "<secret>".to_owned();
    }
    if !mime::is_text(mime) {
        let mut line = String::new();
        line.push('<');
        line.append(mime);
        line.push(',');
        line.push(' ');
        let size = byte_size(bytes.len() as u64);
        line.append(size.as_str());
        line.push('>');
        assert(line@ =~= preview_of(mime@, bytes@, secret));
        return line;
    }
    let t = from_utf8_lossy(bytes);
    preview_text(t.as_str())
}

/// Whether a text is one line to print as it is: it breaks nowhere, holds no
/// control character, and neither begins nor ends with white space.
pub open spec fn plain_line(t: Seq<char>) -> bool {
    &&& t.len() > 0
    &&& !space(t[0])
    &&& !space(t.last())
    &&& forall|i: int| 0 <= i < t.len() ==> #[trigger] t[i] != '\n' && !text::control(t[i])
}

/// Whether there is nothing but white space in a text.
pub open spec fn blank(t: Seq<char>) -> bool {
    forall|i: int| 0 <= i < t.len() ==> space(#[trigger] t[i])
}

proof fn lemma_blank(t: Seq<char>)
    requires
        blank(t),
    ensures
        trimmed(t) == Seq::<char>::empty(),
{
    lemma_blank_start(t);
    assert(trimmed_end(Seq::<char>::empty()) == Seq::<char>::empty());
}

proof fn lemma_blank_start(t: Seq<char>)
    requires
        blank(t),
    ensures
        trimmed_start(t) == Seq::<char>::empty(),
    decreases t.len(),
{
    if t.len() > 0 {
        assert(space(t[0]));
        assert forall|i: int| 0 <= i < t.skip(1).len() implies space(#[trigger] t.skip(1)[i]) by {
            assert(t.skip(1)[i] == t[i + 1]);
        }
        lemma_blank_start(t.skip(1));
    } else {
        assert(t =~= Seq::<char>::empty());
    }
}

proof fn lemma_one_part(t: Seq<char>)
    requires
        forall|i: int| 0 <= i < t.len() ==> #[trigger] t[i] != '\n',
    ensures
        files::parts(t, '\n') == seq![t],
    decreases t.len(),
{
    if t.len() > 0 {
        let rest = t.drop_last();
        assert forall|i: int| 0 <= i < rest.len() implies #[trigger] rest[i] != '\n' by {
            assert(rest[i] == t[i]);
        }
        lemma_one_part(rest);
        assert(t[t.len() - 1] == t.last());
        assert(rest.push(t.last()) =~= t);
        assert(seq![rest].update(0, t) =~= seq![t]);
    } else {
        assert(t =~= Seq::<char>::empty());
    }
}

proof fn lemma_more_parts(before: Seq<char>, line: Seq<char>)
    requires
        forall|i: int| 0 <= i < line.len() ==> #[trigger] line[i] != '\n',
    ensures
        files::parts(before.push('\n') + line, '\n') == files::parts(before, '\n').push(line),
    decreases line.len(),
{
    let all = before.push('\n') + line;
    if line.len() == 0 {
        assert(all =~= before.push('\n'));
        assert(all.drop_last() =~= before);
        assert(line =~= Seq::<char>::empty());
    } else {
        let rest = line.drop_last();
        assert forall|i: int| 0 <= i < rest.len() implies #[trigger] rest[i] != '\n' by {
            assert(rest[i] == line[i]);
        }
        lemma_more_parts(before, rest);
        assert(all.drop_last() =~= before.push('\n') + rest);
        assert(line[line.len() - 1] == line.last());
        let had = files::parts(before, '\n').push(rest);
        assert(had.update(had.len() - 1, rest.push(line.last())) =~= files::parts(
            before,
            '\n',
        ).push(line)) by {
            assert(rest.push(line.last()) =~= line);
        }
    }
}

proof fn lemma_trimmed_plain(t: Seq<char>)
    requires
        plain_line(t),
    ensures
        trimmed(t) == t,
        name::sanitized(t) == t,
{
    assert(name::sanitized(t) =~= t);
}

/// A text of one line that is not too long is previewed as it is, and one that
/// is as far as it goes, with a mark; blank lines before it or after it make no
/// difference, and there is another mark when more lines follow.
pub proof fn a_line_is_previewed_as_it_is(line: Seq<char>, empty: Seq<char>, other: Seq<char>)
    requires
        plain_line(line),
        blank(empty),
        forall|i: int| 0 <= i < empty.len() ==> #[trigger] empty[i] != '\n',
        plain_line(other),
    ensures
        ({
            let shown = if line.len() <= 72 {
                line
            } else {
                line.take(72).push('…')
            };
            &&& text_preview(line) == shown
            &&& text_preview(empty.push('\n') + line) == shown
            &&& text_preview(line.push('\n') + empty) == shown
            &&& text_preview(line.push('\n') + other) == shown + seq![' ', '⏎']
            &&& text_preview(empty) == Seq::<char>::empty()
        }),
{
    assert forall|i: int| 0 <= i < line.len() implies #[trigger] line[i] != '\n' by {}
    lemma_one_part(line);
    lemma_one_part(empty);
    lemma_more_parts(empty, line);
    lemma_more_parts(line, empty);
    lemma_more_parts(line, other);
    lemma_blank(empty);
    lemma_trimmed_plain(line);
    lemma_trimmed_plain(other);
    lemma_written_one(line);
    lemma_written_one(empty);
    lemma_written_two(empty, line);
    lemma_written_two(line, empty);
    lemma_written_two(line, other);
    assert(seq![empty].push(line) =~= seq![empty, line]);
    assert(seq![line].push(empty) =~= seq![line, empty]);
    assert(seq![line].push(other) =~= seq![line, other]);
    assert(name::sanitized(Seq::<char>::empty()) =~= Seq::<char>::empty());
}

proof fn lemma_written_one(line: Seq<char>)
    ensures
        written(seq![line]) == (if trimmed(line).len() == 0 {
            Seq::<Seq<char>>::empty()
        } else {
            seq![trimmed(line)]
        }),
{
    assert(seq![line].drop_last() =~= Seq::<Seq<char>>::empty());
    assert(written(Seq::<Seq<char>>::empty()) == Seq::<Seq<char>>::empty());
    assert(Seq::<Seq<char>>::empty().push(trimmed(line)) =~= seq![trimmed(line)]);
}

proof fn lemma_written_two(first: Seq<char>, second: Seq<char>)
    ensures
        written(seq![first, second]) == (if trimmed(second).len() == 0 {
            written(seq![first])
        } else {
            written(seq![first]).push(trimmed(second))
        }),
{
    assert(seq![first, second].drop_last() =~= seq![first]);
}

/// What is not text is previewed by its type and its size, and a secret not at
/// all.
pub proof fn what_is_no_text_is_previewed_by_its_type(mime: Seq<char>, bytes: Seq<u8>)
    ensures
        preview_of(mime, bytes, true) == "<secret>"@,
        !mime::textual(mime) ==> preview_of(mime, bytes, false) == seq!['<'] + mime + seq![
            ',',
            ' ',
        ] + size_text(bytes.len() as u64) + seq!['>'],
        mime::textual(mime) ==> preview_of(mime, bytes, false) == text_preview(lossy_text(bytes)),
{
}


/// White space around a text does not count: what neither begins nor ends with
/// any is left as it is, whatever stands around it.
pub proof fn white_space_around_does_not_count(t: Seq<char>, first: Seq<char>, last: Seq<char>)
    requires
        t.len() > 0,
        !space(t[0]),
        !space(t.last()),
        blank(first),
        blank(last),
    ensures
        trimmed(first + t + last) == t,
{
    lemma_trim_first(first, t + last);
    assert(first + t + last =~= first + (t + last));
    assert((t + last)[0] == t[0]);
    lemma_trim_last(t, last);
}

proof fn lemma_trim_first(first: Seq<char>, t: Seq<char>)
    requires
        blank(first),
    ensures
        trimmed_start(first + t) == trimmed_start(t),
    decreases first.len(),
{
    if first.len() > 0 {
        let rest = first.skip(1);
        assert(space(first[0]));
        assert forall|i: int| 0 <= i < rest.len() implies space(#[trigger] rest[i]) by {
            assert(rest[i] == first[i + 1]);
        }
        lemma_trim_first(rest, t);
        assert((first + t).skip(1) =~= rest + t);
    } else {
        assert(first + t =~= t);
    }
}

proof fn lemma_trim_last(t: Seq<char>, last: Seq<char>)
    requires
        t.len() > 0,
        !space(t.last()),
        blank(last),
    ensures
        trimmed_end(t + last) == t,
    decreases last.len(),
{
    if last.len() > 0 {
        let rest = last.drop_last();
        assert(space(last[last.len() - 1]));
        assert forall|i: int| 0 <= i < rest.len() implies space(#[trigger] rest[i]) by {
            assert(rest[i] == last[i]);
        }
        lemma_trim_last(t, rest);
        assert((t + last).drop_last() =~= t + rest);
        assert((t + last).last() == last.last());
    } else {
        assert(t + last =~= t);
    }
}


} // verus!
