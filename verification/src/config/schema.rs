//! Reading `config.toml`, the only file the user edits.
//!
//! Every key is optional and defaults in code, so a missing or empty file is
//! valid; a commented template documenting the defaults is written on first
//! start. Reading is strict (an unknown key is an error), because a typoed key
//! silently doing nothing is worse than a load failure, which the daemon
//! reports and survives by falling back to the defaults.

use crate::clip::mime;
use crate::config::settings::Settings;
use crate::text;
use crate::time::Span;
use vstd::prelude::*;

verus! {

/// What a key of a TOML table holds.
#[derive(Debug)]
pub enum TomlValue {
    Bool(bool),
    Int(i64),
    Text(String),
    /// A list, with the texts in it.
    List(Vec<Option<String>>),
    Other,
}

/// What a key of a TOML table holds, for contracts.
pub enum TomlView {
    Bool(bool),
    Int(i64),
    Text(Seq<char>),
    List(Seq<Option<Seq<char>>>),
    Other,
}

/// A text there may be.
pub open spec fn item_view(item: Option<String>) -> Option<Seq<char>> {
    match item {
        Some(t) => Some(t@),
        None => None,
    }
}

/// The texts of a list.
pub open spec fn items_view(list: Seq<Option<String>>) -> Seq<Option<Seq<char>>> {
    list.map_values(|item: Option<String>| item_view(item))
}

impl View for TomlValue {
    type V = TomlView;

    open spec fn view(&self) -> TomlView {
        match *self {
            TomlValue::Bool(b) => TomlView::Bool(b),
            TomlValue::Int(n) => TomlView::Int(n),
            TomlValue::Text(t) => TomlView::Text(t@),
            TomlValue::List(list) => TomlView::List(items_view(list@)),
            TomlValue::Other => TomlView::Other,
        }
    }
}

/// The keys of a table with what they hold.
pub open spec fn table_view(table: Seq<(String, TomlValue)>) -> Seq<(Seq<char>, TomlView)> {
    table.map_values(|pair: (String, TomlValue)| (pair.0@, pair.1@))
}

/// The keys that a TOML document has at its top, with what they hold.
pub uninterp spec fn toml_table(document: Seq<char>) -> Option<Seq<(Seq<char>, TomlView)>>;

/// `toml::from_str`, for a `toml::Table`: the keys of the document with what
/// they hold, or nothing when it is no TOML. An empty document has no keys.
#[verifier::external_body]
pub(crate) fn read_table(document: &str) -> (table: Option<Vec<(String, TomlValue)>>)
    ensures
        table is Some == toml_table(document@) is Some,
        table is Some ==> table_view(table->0@) == toml_table(document@)->0,
        document@.len() == 0 ==> table is Some && table->0@.len() == 0,
{
    let table = toml::from_str::<toml::Table>(document).ok()?;
    Some(table.into_iter().map(|(key, value)| (key, match value {
        toml::Value::Boolean(b) => TomlValue::Bool(b),
        toml::Value::Integer(n) => TomlValue::Int(n),
        toml::Value::String(t) => TomlValue::Text(t),
        toml::Value::Array(list) => TomlValue::List(list.into_iter().map(|item| match item {
            toml::Value::String(t) => Some(t),
            _ => None,
        }).collect()),
        _ => TomlValue::Other,
    })).collect())
}

/// What a table holds under a key.
pub open spec fn value_of(table: Seq<(Seq<char>, TomlView)>, key: Seq<char>) -> Option<TomlView>
    decreases table.len(),
{
    if table.len() == 0 {
        None
    } else if table[0].0 == key {
        Some(table[0].1)
    } else {
        value_of(table.skip(1), key)
    }
}

/// What a table holds under a key.
pub fn value_under<'a>(table: &'a Vec<(String, TomlValue)>, key: &str) -> (found: Option<
    &'a TomlValue,
>)
    ensures
        match found {
            Some(value) => value_of(table_view(table@), key@) == Some(value@),
            None => value_of(table_view(table@), key@) is None,
        },
{
    let ghost all = table_view(table@);
    assert(all.skip(0) =~= all);
    let mut i: usize = 0;
    while i < table.len()
        invariant
            i <= table.len(),
            all == table_view(table@),
            value_of(all, key@) == value_of(all.skip(i as int), key@),
        decreases table.len() - i,
    {
        assert(all.skip(i as int)[0] == (table@[i as int].0@, table@[i as int].1@));
        if text::same(table[i].0.as_str(), key) {
            return Some(&table[i].1);
        }
        assert(all.skip(i as int).skip(1) =~= all.skip(i + 1));
        i += 1;
    }
    None
}

/// The keys of a table of texts with what they hold.
pub open spec fn pairs_view(pairs: Seq<(String, String)>) -> Seq<(Seq<char>, Seq<char>)> {
    pairs.map_values(|pair: (String, String)| (pair.0@, pair.1@))
}

/// Whether a text is made of characters that TOML needs no escape for.
pub open spec fn plain(t: Seq<char>) -> bool {
    forall|i: int|
        0 <= i < t.len() ==> !text::control(#[trigger] t[i]) && t[i] != '"' && t[i] != '\\'
}

/// Whether a table of texts needs no escape, and names no key twice.
pub open spec fn plain_pairs(pairs: Seq<(Seq<char>, Seq<char>)>) -> bool {
    &&& forall|i: int|
        0 <= i < pairs.len() ==> plain((#[trigger] pairs[i]).0) && plain(pairs[i].1)
    &&& forall|i: int, j: int|
        0 <= i < j < pairs.len() ==> (#[trigger] pairs[i]).0 != (#[trigger] pairs[j]).0
}

/// The TOML document that holds some texts under their keys.
pub uninterp spec fn toml_text(pairs: Seq<(Seq<char>, Seq<char>)>) -> Seq<char>;

/// `toml::to_string`, of a `toml::Table` of texts: a document that holds them
/// under their keys. What holds no quote, backslash or control character is
/// written as it is, so reading the document finds it there.
#[verifier::external_body]
pub(crate) fn write_table(pairs: &Vec<(String, String)>) -> (document: String)
    ensures
        document@ == toml_text(pairs_view(pairs@)),
        plain_pairs(pairs_view(pairs@)) ==> toml_table(document@) is Some && forall|i: int|
            0 <= i < pairs@.len() ==> value_of(
                toml_table(document@)->0,
                (#[trigger] pairs_view(pairs@)[i]).0,
            ) == Some(TomlView::Text(pairs_view(pairs@)[i].1)),
{
    let table: toml::Table = pairs.iter().map(
        |pair| (pair.0.clone(), toml::Value::String(pair.1.clone())),
    ).collect();
    toml::to_string(&table).expect("texts are values of TOML")
}

/// How many bytes a text like `512 KiB` means.
pub uninterp spec fn bytes_meant(t: Seq<char>) -> Option<u64>;

/// `bytesize::ByteSize::from_str` reads a number of bytes the way a person
/// writes one.
#[verifier::external_body]
fn read_bytes(t: &str) -> (bytes: Option<u64>)
    ensures
        bytes == bytes_meant(t@),
{
    t.parse::<bytesize::ByteSize>().ok().map(|size| size.as_u64())
}

/// How many nanoseconds a text like `1h 30m` means.
pub uninterp spec fn nanos_meant(t: Seq<char>) -> Option<u128>;

/// Whether a character is one that a unit of time is written with.
pub open spec fn of_unit(c: char) -> bool {
    ('a' <= c && c <= 'z') || ('A' <= c && c <= 'Z') || c == '\u{b5}'
}

/// Whether a text has a unit since its last digit.
pub open spec fn in_unit(t: Seq<char>) -> bool
    decreases t.len(),
{
    t.len() > 0 && (of_unit(t.last()) || !('0' <= t.last() && t.last() <= '9') && in_unit(
        t.drop_last(),
    ))
}

/// The terms of a length of time, such as `1h ` and `30m`: a digit that follows
/// a unit begins the next.
pub open spec fn terms(t: Seq<char>) -> Seq<Seq<char>>
    decreases t.len(),
{
    if t.len() == 0 {
        seq![Seq::empty()]
    } else {
        let rest = terms(t.drop_last());
        if '0' <= t.last() && t.last() <= '9' && in_unit(t.drop_last()) {
            rest.push(seq![t.last()])
        } else {
            rest.drop_last().push(rest.last().push(t.last()))
        }
    }
}

/// How many nanoseconds some terms mean together, when each means some.
pub open spec fn together(terms: Seq<Seq<char>>) -> Option<nat>
    decreases terms.len(),
{
    if terms.len() == 0 {
        Some(0)
    } else {
        match (together(terms.drop_last()), nanos_meant(terms.last())) {
            (Some(sum), Some(nanos)) => Some(sum + nanos as nat),
            _ => None,
        }
    }
}

/// How many nanoseconds are more than a length of time can hold: as many
/// seconds as sixty-four bits count, and one.
pub const TIME_LIMIT: u128 = 18_446_744_073_709_551_616_000_000_000;

/// Whether the terms of a text come to a length of time, one that can be held.
pub open spec fn holds_time(t: Seq<char>) -> bool {
    terms(t).len() <= 1 || (together(terms(t)) matches Some(sum) && sum < TIME_LIMIT)
}

/// The last term of a text is one term, which breaks off as the text does.
proof fn lemma_last_term(t: Seq<char>)
    ensures
        terms(t).len() > 0,
        terms(terms(t).last()).len() == 1,
        in_unit(terms(t).last()) == in_unit(t),
    decreases t.len(),
{
    if t.len() == 0 {
        assert(terms(t).last() =~= Seq::<char>::empty());
    } else {
        lemma_last_term(t.drop_last());
        let last = terms(t).last();
        assert(last.last() == t.last());
        if '0' <= t.last() && t.last() <= '9' && in_unit(t.drop_last()) {
            assert(last.drop_last() =~= Seq::<char>::empty());
            assert(terms(Seq::<char>::empty()).len() == 1);
        } else {
            assert(last.drop_last() =~= terms(t.drop_last()).last());
        }
    }
}

/// `humantime::parse_duration` reads a length of time the way a person writes
/// one: `90s`, `5m`, `1h 30m`. It adds the terms up, and panics when some of
/// them come to exactly one second more than sixty-four bits of seconds hold.
/// One term alone never does.
#[verifier::external_body]
fn read_nanos(t: &str) -> (nanos: Option<u128>)
    requires
        holds_time(t@),
    ensures
        nanos == nanos_meant(t@),
{
    humantime::parse_duration(t).ok().map(|span| span.as_nanos())
}

/// The sum so far with one more term, as long as the terms come to a length of
/// time that can be held.
fn add_term(sum: Option<u128>, term: &Vec<char>, Ghost(done): Ghost<Seq<Seq<char>>>) -> (more:
    Option<u128>)
    requires
        terms(term@).len() == 1,
        held(sum, done),
    ensures
        held(more, done.push(term@)),
{
    assert(done.push(term@).drop_last() =~= done);
    let t = text::text_of(term.as_slice());
    match (sum, read_nanos(t.as_str())) {
        (Some(sum), Some(nanos)) => if nanos < TIME_LIMIT && sum + nanos < TIME_LIMIT {
            Some(sum + nanos)
        } else {
            None
        },
        _ => None,
    }
}

/// Whether a sum is that of some terms, or nothing where they do not come to a
/// length of time that can be held.
spec fn held(sum: Option<u128>, terms: Seq<Seq<char>>) -> bool {
    match sum {
        Some(sum) => together(terms) == Some(sum as nat) && sum < TIME_LIMIT,
        None => !(together(terms) matches Some(sum) && sum < TIME_LIMIT),
    }
}

/// Whether the terms of a text come to a length of time, one that can be held.
fn checks_time(t: &str) -> (r: bool)
    ensures
        r == holds_time(t@),
{
    let chars = text::chars_of(t);
    let mut sum: Option<u128> = Some(0);
    let mut several: bool = false;
    let mut term: Vec<char> = Vec::new();
    let mut unit: bool = false;
    let ghost mut done: Seq<Seq<char>> = Seq::empty();
    let mut i: usize = 0;
    assert(done.push(term@) =~= terms(chars@.take(0)));
    while i < chars.len()
        invariant
            i <= chars.len(),
            done.push(term@) == terms(chars@.take(i as int)),
            several == (done.len() > 0),
            unit == in_unit(chars@.take(i as int)),
            held(sum, done),
        decreases chars.len() - i,
    {
        let c = chars[i];
        let ghost read = chars@.take(i as int);
        proof {
            assert(chars@.take(i + 1).drop_last() =~= read);
            assert(chars@.take(i + 1).last() == c);
            assert(done.push(term@).drop_last() =~= done);
            assert(done.push(term@).last() == term@);
            lemma_last_term(read);
        }
        if '0' <= c && c <= '9' {
            if unit {
                sum = add_term(sum, &term, Ghost(done));
                proof {
                    done = done.push(term@);
                }
                several = true;
                term = Vec::new();
            }
            unit = false;
        } else if ('a' <= c && c <= 'z') || ('A' <= c && c <= 'Z') || c == '\u{b5}' {
            unit = true;
        }
        let ghost had = term@;
        term.push(c);
        assert(had.push(c) == term@);
        assert(Seq::<char>::empty().push(c) =~= seq![c]);
        i += 1;
        assert(done.push(term@) =~= terms(chars@.take(i as int)));
    }
    assert(chars@.take(i as int) =~= t@);
    proof {
        lemma_last_term(t@);
        assert(done.push(term@).last() == term@);
    }
    if several {
        add_term(sum, &term, Ghost(done)).is_some()
    } else {
        true
    }
}

/// The length of time that a text means, if it means one that can be held.
pub open spec fn span_meant(t: Seq<char>) -> Option<Span> {
    if holds_time(t) {
        match nanos_meant(t) {
            Some(nanos) => Some(Span { nanos }),
            None => None,
        }
    } else {
        None
    }
}

/// Reads a length of time written the way a person writes one.
pub fn parse_duration(t: &str) -> (span: Option<Span>)
    ensures
        span == span_meant(t@),
{
    if !checks_time(t) {
        return None;
    }
    match read_nanos(t) {
        Some(nanos) => Some(Span { nanos }),
        None => None,
    }
}

/// What is set, for contracts.
#[verifier::ext_equal]
pub struct SettingsView {
    pub clipboard: bool,
    pub apply: bool,
    pub capture: bool,
    pub history_limit: usize,
    pub max_entry_size: u64,
    pub history_budget: u64,
    pub secret_ttl: Span,
    pub ignore_mime: Seq<Seq<char>>,
    pub files: bool,
    pub max_file_size: u64,
    pub file_budget: u64,
}

impl View for Settings {
    type V = SettingsView;

    open spec fn view(&self) -> SettingsView {
        SettingsView {
            clipboard: self.clipboard,
            apply: self.apply,
            capture: self.capture,
            history_limit: self.history_limit,
            max_entry_size: self.max_entry_size,
            history_budget: self.history_budget,
            secret_ttl: self.secret_ttl,
            ignore_mime: mime::owned_texts(self.ignore_mime@),
            files: self.files,
            max_file_size: self.max_file_size,
            file_budget: self.file_budget,
        }
    }
}

/// What is set when nothing is.
pub open spec fn defaults() -> SettingsView {
    SettingsView {
        clipboard: true,
        apply: true,
        capture: true,
        history_limit: 100,
        max_entry_size: 0x10_0000,
        history_budget: 0x400_0000,
        secret_ttl: Span { nanos: 90_000_000_000 },
        ignore_mime: Seq::empty(),
        files: true,
        max_file_size: 0x4000_0000,
        file_budget: 0x1_0000_0000,
    }
}

/// Why a `config.toml` is refused.
#[derive(Clone, Copy, Debug, PartialEq, Eq, Structural)]
pub enum SettingsError {
    /// It is no TOML.
    Syntax,
    /// It has a key that means nothing.
    UnknownKey,
    /// A key holds something it cannot.
    WrongValue,
}

/// The switch a value is.
pub open spec fn switch_in(value: TomlView) -> Option<bool> {
    match value {
        TomlView::Bool(b) => Some(b),
        _ => None,
    }
}

/// The count a value is.
pub open spec fn count_in(value: TomlView) -> Option<usize> {
    match value {
        TomlView::Int(n) => if 0 <= n <= usize::MAX {
            Some(n as usize)
        } else {
            None
        },
        _ => None,
    }
}

/// The number of bytes a value is: a plain number, or one with a unit.
pub open spec fn bytes_in(value: TomlView) -> Option<u64> {
    match value {
        TomlView::Int(n) => if 0 <= n {
            Some(n as u64)
        } else {
            None
        },
        TomlView::Text(t) => bytes_meant(t),
        _ => None,
    }
}

/// The length of time a value is.
pub open spec fn span_in(value: TomlView) -> Option<Span> {
    match value {
        TomlView::Text(t) => span_meant(t),
        _ => None,
    }
}

/// Whether a list holds texts alone.
pub open spec fn all_texts(list: Seq<Option<Seq<char>>>) -> bool {
    forall|i: int| 0 <= i < list.len() ==> (#[trigger] list[i]) is Some
}

/// The texts a value is.
pub open spec fn texts_in(value: TomlView) -> Option<Seq<Seq<char>>> {
    match value {
        TomlView::List(list) => if all_texts(list) {
            Some(list.map_values(|item: Option<Seq<char>>| item->0))
        } else {
            None
        },
        _ => None,
    }
}

/// What is set once a key is taken into account.
pub open spec fn with_key(settings: SettingsView, key: Seq<char>, value: TomlView) -> Result<
    SettingsView,
    SettingsError,
> {
    if key == "clipboard"@ {
        match switch_in(value) {
            Some(clipboard) => Ok(SettingsView { clipboard, ..settings }),
            None => Err(SettingsError::WrongValue),
        }
    } else if key == "apply"@ {
        match switch_in(value) {
            Some(apply) => Ok(SettingsView { apply, ..settings }),
            None => Err(SettingsError::WrongValue),
        }
    } else if key == "capture"@ {
        match switch_in(value) {
            Some(capture) => Ok(SettingsView { capture, ..settings }),
            None => Err(SettingsError::WrongValue),
        }
    } else if key == "history-limit"@ {
        match count_in(value) {
            Some(history_limit) => Ok(SettingsView { history_limit, ..settings }),
            None => Err(SettingsError::WrongValue),
        }
    } else if key == "max-entry-size"@ {
        match bytes_in(value) {
            Some(max_entry_size) => Ok(SettingsView { max_entry_size, ..settings }),
            None => Err(SettingsError::WrongValue),
        }
    } else if key == "history-budget"@ {
        match bytes_in(value) {
            Some(history_budget) => Ok(SettingsView { history_budget, ..settings }),
            None => Err(SettingsError::WrongValue),
        }
    } else if key == "secret-ttl"@ {
        match span_in(value) {
            Some(secret_ttl) => Ok(SettingsView { secret_ttl, ..settings }),
            None => Err(SettingsError::WrongValue),
        }
    } else if key == "ignore-mime"@ {
        match texts_in(value) {
            Some(ignore_mime) => Ok(SettingsView { ignore_mime, ..settings }),
            None => Err(SettingsError::WrongValue),
        }
    } else if key == "files"@ {
        match switch_in(value) {
            Some(files) => Ok(SettingsView { files, ..settings }),
            None => Err(SettingsError::WrongValue),
        }
    } else if key == "max-file-size"@ {
        match bytes_in(value) {
            Some(max_file_size) => Ok(SettingsView { max_file_size, ..settings }),
            None => Err(SettingsError::WrongValue),
        }
    } else if key == "file-budget"@ {
        match bytes_in(value) {
            Some(file_budget) => Ok(SettingsView { file_budget, ..settings }),
            None => Err(SettingsError::WrongValue),
        }
    } else {
        Err(SettingsError::UnknownKey)
    }
}

/// What is set by the keys of a table, over the defaults.
pub open spec fn set_by(table: Seq<(Seq<char>, TomlView)>) -> Result<SettingsView, SettingsError>
    decreases table.len(),
{
    if table.len() == 0 {
        Ok(defaults())
    } else {
        match set_by(table.drop_last()) {
            Ok(settings) => with_key(settings, table.last().0, table.last().1),
            Err(error) => Err(error),
        }
    }
}

/// What is set by a document.
pub open spec fn read_as(document: Seq<char>) -> Result<SettingsView, SettingsError> {
    match toml_table(document) {
        None => Err(SettingsError::Syntax),
        Some(table) => set_by(table),
    }
}

impl TomlValue {
    fn switch(&self) -> (found: Option<bool>)
        ensures
            found == switch_in(self@),
    {
        match self {
            TomlValue::Bool(b) => Some(*b),
            _ => None,
        }
    }

    fn count(&self) -> (found: Option<usize>)
        ensures
            found == count_in(self@),
    {
        match self {
            TomlValue::Int(n) => if *n >= 0 && *n as u128 <= usize::MAX as u128 {
                Some(*n as usize)
            } else {
                None
            },
            _ => None,
        }
    }

    fn bytes(&self) -> (found: Option<u64>)
        ensures
            found == bytes_in(self@),
    {
        match self {
            TomlValue::Int(n) => if *n >= 0 {
                Some(*n as u64)
            } else {
                None
            },
            TomlValue::Text(t) => read_bytes(t.as_str()),
            _ => None,
        }
    }

    fn span(&self) -> (found: Option<Span>)
        ensures
            found == span_in(self@),
    {
        match self {
            TomlValue::Text(t) => parse_duration(t.as_str()),
            _ => None,
        }
    }

    fn texts(&self) -> (found: Option<Vec<String>>)
        ensures
            match found {
                Some(list) => texts_in(self@) == Some(mime::owned_texts(list@)),
                None => texts_in(self@) is None,
            },
    {
        let items = match self {
            TomlValue::List(items) => items,
            _ => {
                return None;
            },
        };
        let ghost all = items_view(items@);
        let mut list: Vec<String> = Vec::new();
        let mut i: usize = 0;
        while i < items.len()
            invariant
                i <= items.len(),
                all == items_view(items@),
                self@ == TomlView::List(all),
                list@.len() == i,
                forall|j: int| 0 <= j < i ==> (#[trigger] all[j]) is Some,
                forall|j: int| 0 <= j < i ==> (#[trigger] list@[j])@ == all[j]->0,
            decreases items.len() - i,
        {
            assert(all[i as int] == item_view(items@[i as int]));
            match &items[i] {
                Some(t) => {
                    list.push(t.clone());
                },
                None => {
                    assert(!(all[i as int] is Some));
                    return None;
                },
            }
            i += 1;
        }
        assert(mime::owned_texts(list@) =~= all.map_values(|item: Option<Seq<char>>| item->0));
        Some(list)
    }
}

/// Takes a key into account.
fn set(settings: &mut Settings, key: &str, value: &TomlValue) -> (result: Result<(), SettingsError>)
    ensures
        match with_key(old(settings)@, key@, value@) {
            Ok(next) => result is Ok && final(settings)@ == next,
            Err(error) => result == Err::<(), SettingsError>(error),
        },
{
    if text::same(key, "clipboard") {
        match value.switch() {
            Some(on) => settings.clipboard = on,
            None => return Err(SettingsError::WrongValue),
        }
    } else if text::same(key, "apply") {
        match value.switch() {
            Some(on) => settings.apply = on,
            None => return Err(SettingsError::WrongValue),
        }
    } else if text::same(key, "capture") {
        match value.switch() {
            Some(on) => settings.capture = on,
            None => return Err(SettingsError::WrongValue),
        }
    } else if text::same(key, "history-limit") {
        match value.count() {
            Some(n) => settings.history_limit = n,
            None => return Err(SettingsError::WrongValue),
        }
    } else if text::same(key, "max-entry-size") {
        match value.bytes() {
            Some(n) => settings.max_entry_size = n,
            None => return Err(SettingsError::WrongValue),
        }
    } else if text::same(key, "history-budget") {
        match value.bytes() {
            Some(n) => settings.history_budget = n,
            None => return Err(SettingsError::WrongValue),
        }
    } else if text::same(key, "secret-ttl") {
        match value.span() {
            Some(span) => settings.secret_ttl = span,
            None => return Err(SettingsError::WrongValue),
        }
    } else if text::same(key, "ignore-mime") {
        match value.texts() {
            Some(list) => settings.ignore_mime = list,
            None => return Err(SettingsError::WrongValue),
        }
    } else if text::same(key, "files") {
        match value.switch() {
            Some(on) => settings.files = on,
            None => return Err(SettingsError::WrongValue),
        }
    } else if text::same(key, "max-file-size") {
        match value.bytes() {
            Some(n) => settings.max_file_size = n,
            None => return Err(SettingsError::WrongValue),
        }
    } else if text::same(key, "file-budget") {
        match value.bytes() {
            Some(n) => settings.file_budget = n,
            None => return Err(SettingsError::WrongValue),
        }
    } else {
        return Err(SettingsError::UnknownKey);
    }
    Ok(())
}

/// What reading gave, for contracts.
pub open spec fn result_view(result: Result<Settings, SettingsError>) -> Result<
    SettingsView,
    SettingsError,
> {
    match result {
        Ok(settings) => Ok(settings@),
        Err(error) => Err(error),
    }
}

impl Settings {
    /// Reads what a `config.toml` sets.
    pub fn parse(document: &str) -> (result: Result<Settings, SettingsError>)
        ensures
            result_view(result) == read_as(document@),
            document@.len() == 0 ==> result_view(result) == Ok::<SettingsView, SettingsError>(
                defaults(),
            ),
    {
        let table = match read_table(document) {
            Some(table) => table,
            None => {
                return Err(SettingsError::Syntax);
            },
        };
        Settings::from_table(table)
    }

    /// What the keys of a table set, over the defaults.
    pub fn from_table(table: Vec<(String, TomlValue)>) -> (result: Result<Settings, SettingsError>)
        ensures
            result_view(result) == set_by(table_view(table@)),
    {
        let ghost all = table_view(table@);
        let mut settings = Settings::default();
        assert(settings@ =~= defaults());
        let mut i: usize = 0;
        assert(all.take(0) =~= Seq::empty());
        while i < table.len()
            invariant
                i <= table.len(),
                all == table_view(table@),
                set_by(all.take(i as int)) == Ok::<SettingsView, SettingsError>(settings@),
            decreases table.len() - i,
        {
            proof {
                assert(all.take(i + 1).drop_last() =~= all.take(i as int));
                assert(all.take(i + 1).last() == (table@[i as int].0@, table@[i as int].1@));
            }
            match set(&mut settings, table[i].0.as_str(), &table[i].1) {
                Ok(_) => {},
                Err(error) => {
                    proof {
                        lemma_refused(all, i + 1);
                    }
                    return Err(error);
                },
            }
            i += 1;
        }
        assert(all.take(i as int) =~= all);
        Ok(settings)
    }
}

/// A table refused at some key is refused whatever comes after.
proof fn lemma_refused(table: Seq<(Seq<char>, TomlView)>, n: int)
    requires
        0 <= n <= table.len(),
        set_by(table.take(n)) is Err,
    ensures
        set_by(table) == set_by(table.take(n)),
    decreases table.len() - n,
{
    if n == table.len() {
        assert(table.take(n) =~= table);
    } else {
        assert(table.take(n + 1).drop_last() =~= table.take(n));
        lemma_refused(table, n + 1);
    }
}

/// Whether a key means something.
pub open spec fn known(key: Seq<char>) -> bool {
    ||| key == "clipboard"@
    ||| key == "apply"@
    ||| key == "capture"@
    ||| key == "history-limit"@
    ||| key == "max-entry-size"@
    ||| key == "history-budget"@
    ||| key == "secret-ttl"@
    ||| key == "ignore-mime"@
    ||| key == "files"@
    ||| key == "max-file-size"@
    ||| key == "file-budget"@
}

/// A file with a key that means nothing is refused, whatever else it holds.
pub proof fn unknown_keys_are_rejected(table: Seq<(Seq<char>, TomlView)>, n: int)
    requires
        0 <= n < table.len(),
        !known(table[n].0),
    ensures
        set_by(table) is Err,
{
    assert(table.take(n + 1).drop_last() =~= table.take(n));
    assert(table.take(n + 1).last() == table[n]);
    lemma_refused(table, n + 1);
}

/// What is written to a missing `config.toml`. Keys stay commented out: the
/// file documents the defaults without freezing them.
pub const TEMPLATE: &'static str = "# yank configuration
#
# The commented values below are the defaults. Restart the background
# service after editing this file.

# Talk to the compositor at all. Turn this off on a machine with no
# graphical session: yank still replicates, and `yank copy` and
# `yank paste` still work.
#clipboard = true

# Put what other machines copy on this machine's clipboard.
#apply = true

# Share what is copied on this machine with the others.
#capture = true

# How many entries the shared history keeps. One keeps nothing but what
# is on the clipboard right now.
#history-limit = 100

# Largest single entry that gets shared. Anything above is ignored, and
# 4 MiB is as high as this goes: it is what one entry may weigh on the
# wire.
#max-entry-size = \"1 MiB\"

# Total size the history may occupy; the oldest entries are dropped first.
#history-budget = \"64 MiB\"

# Lifetime given to an entry marked secret when none was asked for.
#secret-ttl = \"90s\"

# Mime types to never capture, on top of the ones yank already refuses.
#ignore-mime = []

# Share the contents of copied files, not only their paths.
#files = true

# Largest selection of files that gets shared.
#max-file-size = \"1 GiB\"

# Total size the copied files may occupy.
#file-budget = \"4 GiB\"
";

/// What a table holds under a key, the last time it names it.
pub open spec fn given(table: Seq<(Seq<char>, TomlView)>, key: Seq<char>) -> Option<TomlView>
    decreases table.len(),
{
    if table.len() == 0 {
        None
    } else if table.last().0 == key {
        Some(table.last().1)
    } else {
        given(table.drop_last(), key)
    }
}

/// Whether a switch stands as a file says, or as it stands when the file does
/// not say.
pub open spec fn stands(value: Option<TomlView>, otherwise: bool, switch: bool) -> bool {
    match value {
        Some(value) => value == TomlView::Bool(switch),
        None => switch == otherwise,
    }
}

/// Whether a number of bytes is what a file says, or what it is when the file
/// does not say.
pub open spec fn weighs(value: Option<TomlView>, otherwise: int, bytes: u64) -> bool {
    match value {
        Some(TomlView::Int(n)) => n == bytes,
        Some(TomlView::Text(t)) => bytes_meant(t) == Some(bytes),
        Some(_) => false,
        None => bytes == otherwise,
    }
}

/// Whether settings are what a file says, key by key, and the defaults where it
/// does not say.
pub open spec fn as_given(table: Seq<(Seq<char>, TomlView)>, settings: SettingsView) -> bool {
    &&& stands(given(table, "clipboard"@), true, settings.clipboard)
    &&& stands(given(table, "apply"@), true, settings.apply)
    &&& stands(given(table, "capture"@), true, settings.capture)
    &&& stands(given(table, "files"@), true, settings.files)
    &&& match given(table, "history-limit"@) {
        Some(value) => value matches TomlView::Int(n) && n == settings.history_limit,
        None => settings.history_limit == 100,
    }
    &&& weighs(given(table, "max-entry-size"@), 1024int * 1024, settings.max_entry_size)
    &&& weighs(given(table, "history-budget"@), 64int * 1024 * 1024, settings.history_budget)
    &&& weighs(given(table, "max-file-size"@), 1024int * 1024 * 1024, settings.max_file_size)
    &&& weighs(given(table, "file-budget"@), 4int * 1024 * 1024 * 1024, settings.file_budget)
    &&& match given(table, "secret-ttl"@) {
        Some(value) => value matches TomlView::Text(t) && span_meant(t) == Some(
            settings.secret_ttl,
        ),
        None => settings.secret_ttl.nanos == 90_000_000_000,
    }
    &&& match given(table, "ignore-mime"@) {
        Some(value) => value matches TomlView::List(list) && list.len()
            == settings.ignore_mime.len() && forall|i: int|
            0 <= i < list.len() ==> #[trigger] list[i] == Some(settings.ignore_mime[i]),
        None => settings.ignore_mime.len() == 0,
    }
}

proof fn lemma_keys_differ()
    ensures
        "clipboard"@ != "apply"@ && "clipboard"@ != "capture"@ && "clipboard"@ != "files"@,
        "clipboard"@ != "history-limit"@ && "clipboard"@ != "max-entry-size"@,
        "clipboard"@ != "history-budget"@ && "clipboard"@ != "max-file-size"@,
        "clipboard"@ != "file-budget"@ && "clipboard"@ != "secret-ttl"@,
        "clipboard"@ != "ignore-mime"@,
        "apply"@ != "capture"@ && "apply"@ != "files"@ && "apply"@ != "history-limit"@,
        "apply"@ != "max-entry-size"@ && "apply"@ != "history-budget"@,
        "apply"@ != "max-file-size"@ && "apply"@ != "file-budget"@ && "apply"@ != "secret-ttl"@,
        "apply"@ != "ignore-mime"@,
        "capture"@ != "files"@ && "capture"@ != "history-limit"@,
        "capture"@ != "max-entry-size"@ && "capture"@ != "history-budget"@,
        "capture"@ != "max-file-size"@ && "capture"@ != "file-budget"@,
        "capture"@ != "secret-ttl"@ && "capture"@ != "ignore-mime"@,
        "files"@ != "history-limit"@ && "files"@ != "max-entry-size"@,
        "files"@ != "history-budget"@ && "files"@ != "max-file-size"@,
        "files"@ != "file-budget"@ && "files"@ != "secret-ttl"@ && "files"@ != "ignore-mime"@,
        "history-limit"@ != "max-entry-size"@ && "history-limit"@ != "history-budget"@,
        "history-limit"@ != "max-file-size"@ && "history-limit"@ != "file-budget"@,
        "history-limit"@ != "secret-ttl"@ && "history-limit"@ != "ignore-mime"@,
        "max-entry-size"@ != "history-budget"@ && "max-entry-size"@ != "max-file-size"@,
        "max-entry-size"@ != "file-budget"@ && "max-entry-size"@ != "secret-ttl"@,
        "max-entry-size"@ != "ignore-mime"@,
        "history-budget"@ != "max-file-size"@ && "history-budget"@ != "file-budget"@,
        "history-budget"@ != "secret-ttl"@ && "history-budget"@ != "ignore-mime"@,
        "max-file-size"@ != "file-budget"@ && "max-file-size"@ != "secret-ttl"@,
        "max-file-size"@ != "ignore-mime"@,
        "file-budget"@ != "secret-ttl"@ && "file-budget"@ != "ignore-mime"@,
        "secret-ttl"@ != "ignore-mime"@,
{
    reveal_strlit("clipboard");
    reveal_strlit("apply");
    reveal_strlit("capture");
    reveal_strlit("files");
    reveal_strlit("history-limit");
    reveal_strlit("max-entry-size");
    reveal_strlit("history-budget");
    reveal_strlit("max-file-size");
    reveal_strlit("file-budget");
    reveal_strlit("secret-ttl");
    reveal_strlit("ignore-mime");
    assert("clipboard"@.len() == 9 && "apply"@.len() == 5 && "capture"@.len() == 7);
    assert("files"@.len() == 5 && "history-limit"@.len() == 13 && "max-entry-size"@.len() == 14);
    assert("history-budget"@.len() == 14 && "max-file-size"@.len() == 13);
    assert("file-budget"@.len() == 11 && "secret-ttl"@.len() == 10 && "ignore-mime"@.len() == 11);
    assert("apply"@[0] != "files"@[0]);
    assert("history-limit"@[0] != "max-file-size"@[0]);
    assert("max-entry-size"@[0] != "history-budget"@[0]);
    assert("file-budget"@[0] != "ignore-mime"@[0]);
}

/// A file that is read sets what it says, key by key, and everything else stays
/// as it is by default.
pub proof fn a_file_sets_what_it_says(
    table: Seq<(Seq<char>, TomlView)>,
    settings: SettingsView,
)
    requires
        set_by(table) == Ok::<SettingsView, SettingsError>(settings),
    ensures
        as_given(table, settings),
    decreases table.len(),
{
    if table.len() > 0 {
        lemma_keys_differ();
        let rest = table.drop_last();
        let before = set_by(rest)->Ok_0;
        a_file_sets_what_it_says(rest, before);
    }
}

/// Whether a key may hold a value.
pub open spec fn may_hold(key: Seq<char>, value: TomlView) -> bool {
    if key == "clipboard"@ || key == "apply"@ || key == "capture"@ || key == "files"@ {
        value is Bool
    } else if key == "history-limit"@ {
        value matches TomlView::Int(n) && 0 <= n <= usize::MAX
    } else if key == "max-entry-size"@ || key == "history-budget"@ || key == "max-file-size"@ || key
        == "file-budget"@ {
        match value {
            TomlView::Int(n) => n >= 0,
            TomlView::Text(t) => bytes_meant(t) is Some,
            _ => false,
        }
    } else if key == "secret-ttl"@ {
        value matches TomlView::Text(t) && span_meant(t) is Some
    } else if key == "ignore-mime"@ {
        value matches TomlView::List(list) && forall|i: int|
            0 <= i < list.len() ==> (#[trigger] list[i]) is Some
    } else {
        false
    }
}

/// A file is read when every key of it is one that means something and holds
/// something it may, and only then.
pub proof fn a_file_of_proper_keys_is_read(table: Seq<(Seq<char>, TomlView)>)
    ensures
        set_by(table) is Ok <==> forall|i: int|
            0 <= i < table.len() ==> may_hold((#[trigger] table[i]).0, table[i].1),
    decreases table.len(),
{
    if table.len() > 0 {
        lemma_keys_differ();
        let rest = table.drop_last();
        a_file_of_proper_keys_is_read(rest);
        assert(table[table.len() - 1] == table.last());
        if set_by(rest) is Ok {
            let settings = set_by(rest)->Ok_0;
            assert(with_key(settings, table.last().0, table.last().1) is Ok <==> may_hold(
                table.last().0,
                table.last().1,
            ));
            assert forall|i: int| 0 <= i < rest.len() implies may_hold(
                (#[trigger] table[i]).0,
                table[i].1,
            ) by {
                assert(rest[i] == table[i]);
            }
        } else {
            let i = choose|i: int|
                0 <= i < rest.len() && !may_hold((#[trigger] rest[i]).0, rest[i].1);
            assert(table[i] == rest[i]);
        }
    }
}


/// Some texts, one after the other.
pub open spec fn in_a_row(parts: Seq<Seq<char>>) -> Seq<char>
    decreases parts.len(),
{
    if parts.len() == 0 {
        Seq::empty()
    } else {
        in_a_row(parts.drop_last()) + parts.last()
    }
}

/// The terms of a length of time are all of it: one after the other they are the
/// text.
pub proof fn the_terms_are_all_of_it(t: Seq<char>)
    ensures
        terms(t).len() > 0,
        in_a_row(terms(t)) == t,
    decreases t.len(),
{
    if t.len() == 0 {
        assert(terms(t).drop_last() =~= Seq::<Seq<char>>::empty());
        assert(in_a_row(terms(t).drop_last()) == Seq::<char>::empty());
        assert(in_a_row(terms(t)) =~= t);
    } else {
        let less = t.drop_last();
        the_terms_are_all_of_it(less);
        let rest = terms(less);
        let all = terms(t);
        assert(less.push(t.last()) =~= t);
        if '0' <= t.last() && t.last() <= '9' && in_unit(less) {
            assert(all.drop_last() =~= rest);
            assert(in_a_row(all) =~= t);
        } else {
            assert(all.drop_last() =~= rest.drop_last());
            assert(in_a_row(all) =~= in_a_row(rest).push(t.last()));
        }
    }
}


/// Lengths of time add up: what some terms mean together is what the first of
/// them mean and what the rest do, and one alone means what it says.
pub proof fn lengths_of_time_add_up(first: Seq<Seq<char>>, rest: Seq<Seq<char>>, term: Seq<char>)
    ensures
        together(first + rest) == (match (together(first), together(rest)) {
            (Some(a), Some(b)) => Some(a + b),
            _ => None,
        }),
        together(seq![term]) == (match nanos_meant(term) {
            Some(nanos) => Some(nanos as nat),
            None => None,
        }),
    decreases rest.len(),
{
    assert(seq![term].drop_last() =~= Seq::<Seq<char>>::empty());
    assert(together(seq![term].drop_last()) == Some(0nat));
    let all = first + rest;
    if rest.len() == 0 {
        assert(all =~= first);
    } else {
        assert(all.last() == rest.last());
        assert(all.drop_last() =~= first + rest.drop_last());
        lengths_of_time_add_up(first, rest.drop_last(), term);
    }
}

/// A length of time is read exactly as it is meant while its terms come to less
/// than two to the power of sixty-four seconds, and refused beyond.
pub proof fn a_length_of_time_is_read_while_it_can_be_held(t: Seq<char>, sum: nat)
    requires
        together(terms(t)) == Some(sum),
    ensures
        sum < 0x1_0000_0000_0000_0000int * 1_000_000_000 ==> match nanos_meant(t) {
            Some(nanos) => span_meant(t) == Some(Span { nanos }),
            None => span_meant(t) is None,
        },
        terms(t).len() > 1 && sum >= 0x1_0000_0000_0000_0000int * 1_000_000_000 ==> span_meant(
            t,
        ) is None,
{
}

} // verus!
