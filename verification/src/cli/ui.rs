//! Shared presentation for the command line.
//!
//! Whoever prints strips the escape sequences when the output is not a
//! terminal. Commands go through what follows rather than styling by hand, so
//! the palette stays in one place.
//!
//! Machine names and entry previews are cleaned up at the daemon boundary and
//! print as they are; anything else coming from a peer or the daemon has to
//! pass through [`crate::config::sanitize`] first.

use crate::text;
use vstd::prelude::*;

verus! {

/// How something is printed.
#[derive(Clone, Copy, Debug, PartialEq, Eq, Structural)]
pub enum Style {
    /// A section heading.
    Heading,
    /// Healthy, or done.
    Good,
    /// Worth a look, without being broken.
    Warn,
    /// Broken.
    Bad,
    /// Detail, secondary to what it sits beside.
    Dim,
}

/// A color of the palette.
#[derive(Clone, Copy, Debug, PartialEq, Eq, Structural)]
enum Color {
    Green,
    Yellow,
    Red,
}

/// The escape sequence that turns a style on.
pub open spec fn escape(style: Style) -> Seq<char> {
    match style {
        Style::Heading => "\u{1b}[1m"@,
        Style::Good => "\u{1b}[32m"@,
        Style::Warn => "\u{1b}[33m"@,
        Style::Bad => "\u{1b}[31m"@,
        Style::Dim => "\u{1b}[2m"@,
    }
}

/// A text in a style, and only the text.
pub open spec fn painted(style: Style, t: Seq<char>) -> Seq<char> {
    escape(style) + t + "\u{1b}[0m"@
}

/// The escape sequences of a combination of effects.
spec fn effects(bold: bool, dimmed: bool, color: Option<Color>) -> Seq<char> {
    (if bold {
        "\u{1b}[1m"@
    } else {
        Seq::empty()
    }) + (if dimmed {
        "\u{1b}[2m"@
    } else {
        Seq::empty()
    }) + (match color {
        Some(Color::Green) => "\u{1b}[32m"@,
        Some(Color::Yellow) => "\u{1b}[33m"@,
        Some(Color::Red) => "\u{1b}[31m"@,
        None => Seq::empty(),
    })
}

/// `anstyle::Style` prints as the escape sequences that turn it on: those of
/// its effects, then that of its color. In the alternate form it prints as the
/// one that turns everything off, unless it is plain.
#[verifier::external_body]
fn render(bold: bool, dimmed: bool, color: Option<Color>, t: &str) -> (out: String)
    ensures
        out@ == effects(bold, dimmed, color) + t@ + (if bold || dimmed || color is Some {
            "\u{1b}[0m"@
        } else {
            Seq::empty()
        }),
{
    let color = color.map(|color| anstyle::Color::Ansi(match color {
        Color::Green => anstyle::AnsiColor::Green,
        Color::Yellow => anstyle::AnsiColor::Yellow,
        Color::Red => anstyle::AnsiColor::Red,
    }));
    let effects = anstyle::Effects::new().set(anstyle::Effects::BOLD, bold).set(
        anstyle::Effects::DIMMED,
        dimmed,
    );
    let style = anstyle::Style::new().fg_color(color).effects(effects);
    format!("{style}{t}{style:#}")
}

/// A text in a style.
pub fn paint(style: Style, t: &str) -> (out: String)
    ensures
        out@ == painted(style, t@),
{
    let out = match style {
        Style::Heading => render(true, false, None, t),
        Style::Good => render(false, false, Some(Color::Green), t),
        Style::Warn => render(false, false, Some(Color::Yellow), t),
        Style::Bad => render(false, false, Some(Color::Red), t),
        Style::Dim => render(false, true, None, t),
    };
    assert(out@ =~= painted(style, t@));
    out
}

/// A section heading.
pub fn heading(t: &str) -> (out: String)
    ensures
        out@ == painted(Style::Heading, t@),
{
    paint(Style::Heading, t)
}

/// Healthy, or done.
pub fn good(t: &str) -> (out: String)
    ensures
        out@ == painted(Style::Good, t@),
{
    paint(Style::Good, t)
}

/// Worth a look, without being broken.
pub fn warn(t: &str) -> (out: String)
    ensures
        out@ == painted(Style::Warn, t@),
{
    paint(Style::Warn, t)
}

/// Broken.
pub fn bad(t: &str) -> (out: String)
    ensures
        out@ == painted(Style::Bad, t@),
{
    paint(Style::Bad, t)
}

/// Detail, secondary to what it sits beside.
pub fn dim(t: &str) -> (out: String)
    ensures
        out@ == painted(Style::Dim, t@),
{
    paint(Style::Dim, t)
}

/// A duration in seconds, short enough for a column: `43s`, `12m`, `2h 4m`,
/// `3d`.
pub open spec fn duration_text(secs: nat) -> Seq<char> {
    if secs < 60 {
        text::decimal_digits(secs) + "s"@
    } else if secs < 3600 {
        text::decimal_digits(secs / 60) + "m"@
    } else if secs < 86400 {
        text::decimal_digits(secs / 3600) + "h "@ + text::decimal_digits((secs % 3600) / 60) + "m"@
    } else {
        text::decimal_digits(secs / 86400) + "d"@
    }
}

/// A duration in seconds, short enough for a column: `43s`, `12m`, `2h 4m`,
/// `3d`.
pub fn duration(secs: u64) -> (t: String)
    ensures
        t@ == duration_text(secs as nat),
{
    if secs < 60 {
        let mut t = text::decimal(secs as u128);
        t.append("s");
        t
    } else if secs < 3600 {
        let mut t = text::decimal((secs / 60) as u128);
        t.append("m");
        t
    } else if secs < 86400 {
        let mut t = text::decimal((secs / 3600) as u128);
        t.append("h ");
        let minutes = text::decimal(((secs % 3600) / 60) as u128);
        t.append(minutes.as_str());
        t.append("m");
        t
    } else {
        let mut t = text::decimal((secs / 86400) as u128);
        t.append("d");
        t
    }
}

/// The length of the longest of some texts, in characters; zero when there is
/// none.
pub open spec fn widest(names: Seq<Seq<char>>) -> nat
    decreases names.len(),
{
    if names.len() == 0 {
        0
    } else {
        let before = widest(names.drop_last());
        if names.last().len() > before {
            names.last().len()
        } else {
            before
        }
    }
}

/// The texts of some strings.
pub open spec fn texts(names: Seq<&str>) -> Seq<Seq<char>> {
    names.map_values(|name: &str| name@)
}

/// The width of the longest name, for lining columns up.
pub fn width(names: &[&str]) -> (width: usize)
    ensures
        width == widest(texts(names@)),
{
    let ghost all = texts(names@);
    let mut width: usize = 0;
    let mut i: usize = 0;
    assert(all.take(0) =~= Seq::empty());
    while i < names.len()
        invariant
            i <= names.len(),
            all == texts(names@),
            width == widest(all.take(i as int)),
        decreases names.len() - i,
    {
        let n: usize = text::chars_of(names[i]).len();
        assert(all.take(i + 1).drop_last() =~= all.take(i as int));
        if n > width {
            width = n;
        }
        i += 1;
    }
    assert(all.take(i as int) =~= all);
    width
}

/// So many blanks.
pub open spec fn blanks(n: int) -> Seq<char> {
    Seq::new(
        if n > 0 {
            n as nat
        } else {
            0
        },
        |i: int| ' ',
    )
}

/// Appends the blanks that fill a text up to a width.
pub fn fill(out: &mut String, t: &str, width: usize)
    ensures
        final(out)@ == old(out)@ + blanks(width - t@.len()),
{
    let n: usize = text::chars_of(t).len();
    let mut i: usize = n;
    assert(blanks(0) =~= Seq::empty());
    while i < width
        invariant
            n <= i,
            i <= width || i == n,
            n == t@.len(),
            out@ == old(out)@ + blanks(i - n),
        decreases width - i,
    {
        let ghost before = out@;
        out.push(' ');
        assert(blanks(i + 1 - n) =~= blanks(i - n).push(' '));
        assert(out@ =~= old(out)@ + blanks(i + 1 - n));
        i += 1;
    }
    assert(blanks(width - t@.len()) =~= blanks(i - n));
}

/// Filled up with blanks, every name of a column is as wide as the widest.
pub proof fn columns_line_up(names: Seq<Seq<char>>, i: int)
    requires
        0 <= i < names.len(),
    ensures
        names[i].len() <= widest(names),
        (names[i] + blanks(widest(names) - names[i].len())).len() == widest(names),
    decreases names.len(),
{
    if i < names.len() - 1 {
        assert(names.drop_last()[i] == names[i]);
        columns_line_up(names.drop_last(), i);
    }
}

/// A column is no wider than it must be: a width that every name fits is no
/// less than the widest of them.
pub proof fn no_column_is_wider_than_it_must_be(names: Seq<Seq<char>>, width: nat)
    requires
        forall|i: int| 0 <= i < names.len() ==> (#[trigger] names[i]).len() <= width,
    ensures
        widest(names) <= width,
    decreases names.len(),
{
    if names.len() > 0 {
        assert forall|i: int| 0 <= i < names.drop_last().len() implies (
        #[trigger] names.drop_last()[i]).len() <= width by {
            assert(names.drop_last()[i] == names[i]);
        }
        no_column_is_wider_than_it_must_be(names.drop_last(), width);
        assert(names[names.len() - 1] == names.last());
    }
}

/// So many days, hours, minutes and seconds read as the days of them; without
/// any day, as the hours and minutes; without any hour, as the minutes; and
/// without any minute, as the seconds.
pub proof fn a_duration_is_read_off(days: nat, hours: nat, minutes: nat, seconds: nat)
    requires
        hours < 24,
        minutes < 60,
        seconds < 60,
    ensures
        ({
            let told = duration_text(
                seconds + 60 * (minutes + 60 * (hours + 24 * days)),
            );
            if days > 0 {
                told == text::decimal_digits(days).push('d')
            } else if hours > 0 {
                told == text::decimal_digits(hours) + seq!['h', ' '] + text::decimal_digits(
                    minutes,
                ).push('m')
            } else if minutes > 0 {
                told == text::decimal_digits(minutes).push('m')
            } else {
                told == text::decimal_digits(seconds).push('s')
            }
        }),
{
    let all = seconds + 60 * (minutes + 60 * (hours + 24 * days));
    reveal_strlit("s");
    reveal_strlit("m");
    reveal_strlit("h ");
    reveal_strlit("d");
    let told = duration_text(all);
    if days > 0 {
        assert(all / 86400 == days);
        assert(told =~= text::decimal_digits(days).push('d'));
    } else if hours > 0 {
        assert(all / 3600 == hours);
        assert((all % 3600) / 60 == minutes);
        assert(told =~= text::decimal_digits(hours) + seq!['h', ' '] + text::decimal_digits(
            minutes,
        ).push('m'));
    } else if minutes > 0 {
        assert(all / 60 == minutes);
        assert(told =~= text::decimal_digits(minutes).push('m'));
    } else {
        assert(told =~= text::decimal_digits(seconds).push('s'));
    }
}

/// Styling shows: what is printed in a style begins with an escape sequence,
/// ends with the one that turns everything off, and holds the text between, as
/// it is. Two styles never look the same.
pub proof fn a_style_is_put_around_the_text(style: Style, other: Style, t: Seq<char>)
    ensures
        ({
            let out = painted(style, t);
            let head = out.len() - t.len() - 4;
            &&& 4 <= head <= 5
            &&& out[0] == '\u{1b}' && out[1] == '[' && out[head - 1] == 'm'
            &&& out.subrange(head, head + t.len()) == t
            &&& out.skip(head + t.len()) == seq!['\u{1b}', '[', '0', 'm']
        }),
        painted(style, t) == painted(other, t) ==> style == other,
{
    reveal_strlit("\u{1b}[1m");
    reveal_strlit("\u{1b}[32m");
    reveal_strlit("\u{1b}[33m");
    reveal_strlit("\u{1b}[31m");
    reveal_strlit("\u{1b}[2m");
    reveal_strlit("\u{1b}[0m");
    let out = painted(style, t);
    let head = out.len() - t.len() - 4;
    assert(escape(style).len() == head);
    assert(out[head - 1] == escape(style)[head - 1]);
    assert(out.subrange(head, head + t.len()) =~= t);
    assert(out.skip(head + t.len()) =~= seq!['\u{1b}', '[', '0', 'm']);
    if painted(style, t) == painted(other, t) {
        assert(escape(other).len() == head);
        assert(out.take(head as int) =~= escape(style));
        assert(painted(other, t).take(head as int) =~= escape(other));
        assert(escape(style)[2] == escape(other)[2]);
        assert(head == 5 ==> escape(style)[3] == escape(other)[3]);
    }
}

} // verus!
