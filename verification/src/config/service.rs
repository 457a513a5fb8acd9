//! `service.toml`: which program installed the background service.
//!
//! `yank service install` records itself; external managers record their own
//! name, which is what stops the command line from replacing a declaratively
//! managed unit. A missing file means nothing was recorded.

use crate::config::schema;
use crate::config::schema::{read_table, value_under, write_table, TomlValue};
use crate::text;
use vstd::prelude::*;

verus! {

/// Installer recorded by `yank service install`.
pub const CLI: &'static str = "cli";

/// The recorded installation of the daemon service.
#[derive(Debug)]
pub struct ServiceState {
    pub installer: String,
    pub label: String,
}

/// A recorded installation, for contracts.
#[verifier::ext_equal]
pub struct ServiceView {
    pub installer: Seq<char>,
    pub label: Seq<char>,
}

impl View for ServiceState {
    type V = ServiceView;

    open spec fn view(&self) -> ServiceView {
        ServiceView { installer: self.installer@, label: self.label@ }
    }
}

/// Why a `service.toml` is refused.
#[derive(Clone, Copy, Debug, PartialEq, Eq, Structural)]
pub enum RecordError {
    /// It is no TOML.
    Syntax,
    /// It does not say in words who installed the service, and as what.
    Incomplete,
}

/// The text under a key of a table.
pub open spec fn text_in(table: Seq<(Seq<char>, schema::TomlView)>, key: Seq<char>) -> Option<
    Seq<char>,
> {
    match schema::value_of(table, key) {
        Some(schema::TomlView::Text(t)) => Some(t),
        _ => None,
    }
}

/// What a table records.
pub open spec fn recorded_in(table: Seq<(Seq<char>, schema::TomlView)>) -> Option<ServiceView> {
    match (text_in(table, "installer"@), text_in(table, "label"@)) {
        (Some(installer), Some(label)) => Some(ServiceView { installer, label }),
        _ => None,
    }
}

/// What a document records.
pub open spec fn read_as(document: Seq<char>) -> Result<ServiceView, RecordError> {
    match schema::toml_table(document) {
        None => Err(RecordError::Syntax),
        Some(table) => match recorded_in(table) {
            Some(state) => Ok(state),
            None => Err(RecordError::Incomplete),
        },
    }
}

/// What reading gave, for contracts.
pub open spec fn result_view(result: Result<ServiceState, RecordError>) -> Result<
    ServiceView,
    RecordError,
> {
    match result {
        Ok(state) => Ok(state@),
        Err(error) => Err(error),
    }
}

/// The keys of a record with what they hold.
pub open spec fn pairs_of(state: ServiceView) -> Seq<(Seq<char>, Seq<char>)> {
    seq![("installer"@, state.installer), ("label"@, state.label)]
}

/// Whether a record can be written in plain letters.
pub open spec fn plain(state: ServiceView) -> bool {
    schema::plain(state.installer) && schema::plain(state.label)
}

fn text_under(table: &Vec<(String, TomlValue)>, key: &str) -> (found: Option<String>)
    ensures
        match found {
            Some(t) => text_in(schema::table_view(table@), key@) == Some(t@),
            None => text_in(schema::table_view(table@), key@) is None,
        },
{
    match value_under(table, key) {
        Some(TomlValue::Text(t)) => Some(t.clone()),
        _ => None,
    }
}

impl ServiceState {
    /// Reads a record.
    pub fn parse(document: &str) -> (result: Result<Self, RecordError>)
        ensures
            result_view(result) == read_as(document@),
    {
        match read_table(document) {
            None => Err(RecordError::Syntax),
            Some(table) => ServiceState::from_table(&table),
        }
    }

    /// What a table records.
    pub fn from_table(table: &Vec<(String, TomlValue)>) -> (result: Result<Self, RecordError>)
        ensures
            match recorded_in(schema::table_view(table@)) {
                Some(state) => result_view(result) == Ok::<ServiceView, RecordError>(state),
                None => result_view(result) == Err::<ServiceView, RecordError>(
                    RecordError::Incomplete,
                ),
            },
    {
        match (text_under(table, "installer"), text_under(table, "label")) {
            (Some(installer), Some(label)) => Ok(ServiceState { installer, label }),
            _ => Err(RecordError::Incomplete),
        }
    }

    /// The record of `label` as installed by the command line.
    pub fn recorded_cli(label: &str) -> (state: Self)
        ensures
            state@ == (ServiceView { installer: CLI@, label: label@ }),
    {
        ServiceState { installer: CLI.to_owned(), label: label.to_owned() }
    }

    /// The file that records it. One of plain letters is read back as it was.
    pub fn document(&self) -> (document: String)
        ensures
            document@ == schema::toml_text(pairs_of(self@)),
            plain(self@) ==> read_as(document@) == Ok::<ServiceView, RecordError>(self@),
    {
        let mut pairs: Vec<(String, String)> = Vec::new();
        pairs.push(("installer".to_owned(), self.installer.clone()));
        pairs.push(("label".to_owned(), self.label.clone()));
        let ghost view = schema::pairs_view(pairs@);
        assert(view =~= pairs_of(self@));
        proof {
            reveal_strlit("installer");
            reveal_strlit("label");
        }
        assert(plain(self@) ==> schema::plain_pairs(view)) by {
            assert(view[0].0.len() == 9 && view[1].0.len() == 5);
        }
        let document = write_table(&pairs);
        proof {
            if plain(self@) {
                let table = schema::toml_table(document@)->0;
                assert(schema::value_of(table, view[0].0) == Some(
                    schema::TomlView::Text(view[0].1),
                ));
                assert(schema::value_of(table, view[1].0) == Some(
                    schema::TomlView::Text(view[1].1),
                ));
            }
        }
        document
    }

    /// Whether the command line installed it.
    pub fn is_ours(&self) -> (r: bool)
        ensures
            r == (self@.installer == CLI@),
    {
        text::same(self.installer.as_str(), CLI)
    }
}

/// A record is read from any table that names an installer and a label in words,
/// once each, whatever else it holds and in whatever order; without either
/// there is none.
pub proof fn a_record_is_who_and_what(
    table: Seq<(Seq<char>, schema::TomlView)>,
    i: int,
    j: int,
    installer: Seq<char>,
    label: Seq<char>,
)
    requires
        0 <= i < table.len(),
        0 <= j < table.len(),
        table[i] == ("installer"@, schema::TomlView::Text(installer)),
        table[j] == ("label"@, schema::TomlView::Text(label)),
        forall|k: int, l: int|
            0 <= k < l < table.len() ==> (#[trigger] table[k]).0 != (#[trigger] table[l]).0,
    ensures
        recorded_in(table) == Some(ServiceView { installer, label }),
        recorded_in(table.remove(i)) is None,
        recorded_in(table.remove(j)) is None,
{
    lemma_value(table, "installer"@, i);
    lemma_value(table, "label"@, j);
    lemma_no_value(table.remove(i), "installer"@);
    lemma_no_value(table.remove(j), "label"@);
}

/// What stands under a key is what the table holds under it.
proof fn lemma_value(table: Seq<(Seq<char>, schema::TomlView)>, key: Seq<char>, i: int)
    requires
        0 <= i < table.len(),
        table[i].0 == key,
        forall|k: int| 0 <= k < i ==> (#[trigger] table[k]).0 != key,
    ensures
        schema::value_of(table, key) == Some(table[i].1),
    decreases i,
{
    if i > 0 {
        let rest = table.skip(1);
        assert forall|k: int| 0 <= k < i - 1 implies (#[trigger] rest[k]).0 != key by {
            assert(rest[k] == table[k + 1]);
        }
        lemma_value(rest, key, i - 1);
    }
}

/// A table holds nothing under a key that is not in it.
proof fn lemma_no_value(table: Seq<(Seq<char>, schema::TomlView)>, key: Seq<char>)
    requires
        forall|k: int| 0 <= k < table.len() ==> (#[trigger] table[k]).0 != key,
    ensures
        schema::value_of(table, key) is None,
    decreases table.len(),
{
    if table.len() > 0 {
        let rest = table.skip(1);
        assert forall|k: int| 0 <= k < rest.len() implies (#[trigger] rest[k]).0 != key by {
            assert(rest[k] == table[k + 1]);
        }
        lemma_no_value(rest, key);
    }
}

} // verus!
