//! What the user sets in `config.toml`.
//!
//! Every key is optional and defaults in code. The daemon reads the file once
//! at startup: edits apply on the next restart.

use crate::clip::mime;
use crate::log::MAX_ENTRY_BYTES;
use crate::time::Span;
use vstd::prelude::*;

verus! {

/// The parsed `config.toml`.
#[derive(Debug)]
pub struct Settings {
    /// Whether to connect to a compositor at all.
    pub clipboard: bool,
    /// Whether entries from other machines reach this clipboard.
    pub apply: bool,
    /// Whether this machine's clipboard is shared with the others.
    pub capture: bool,
    /// How many entries the history keeps. Read it through
    /// [`Self::history_entries`], which is where the floor of one is enforced.
    pub history_limit: usize,
    /// Largest entry accepted from the local clipboard, in bytes.
    pub max_entry_size: u64,
    /// Total size the history may occupy, in bytes.
    pub history_budget: u64,
    /// Lifetime given to a secret entry when the caller asks for none.
    pub secret_ttl: Span,
    /// Mime types never captured, on top of the built-in refusals.
    pub ignore_mime: Vec<String>,
    /// Whether the contents of copied files are shared.
    pub files: bool,
    /// Largest selection of files that gets shared, in bytes.
    pub max_file_size: u64,
    /// Total size the spool of files may occupy, in bytes.
    pub file_budget: u64,
}

impl Default for Settings {
    fn default() -> (settings: Self)
        ensures
            settings.clipboard && settings.apply && settings.capture && settings.files,
            settings.history_limit == 100,
            settings.max_entry_size == 0x10_0000,
            settings.history_budget == 0x400_0000,
            settings.secret_ttl.nanos == 90_000_000_000,
            settings.ignore_mime@.len() == 0,
            settings.max_file_size == 0x4000_0000,
            settings.file_budget == 0x1_0000_0000,
    {
        Settings {
            clipboard: true,
            apply: true,
            capture: true,
            history_limit: 100,
            max_entry_size: 0x10_0000,
            history_budget: 0x400_0000,
            secret_ttl: Span { nanos: 90_000_000_000 },
            ignore_mime: Vec::new(),
            files: true,
            max_file_size: 0x4000_0000,
            file_budget: 0x1_0000_0000,
        }
    }
}

/// A number of bytes as a length, as far as a length goes.
pub open spec fn as_length(bytes: u64) -> usize {
    if bytes <= usize::MAX {
        bytes as usize
    } else {
        usize::MAX
    }
}

/// A number of bytes as a length, as far as a length goes.
pub fn length(bytes: u64) -> (n: usize)
    ensures
        n == as_length(bytes),
{
    if bytes as u128 <= usize::MAX as u128 {
        bytes as usize
    } else {
        usize::MAX
    }
}

impl Settings {
    /// How many entries to keep.
    pub open spec fn kept_entries(&self) -> usize {
        if self.history_limit >= 1 {
            self.history_limit
        } else {
            1
        }
    }

    /// How many entries to keep, never below one: a history of zero would
    /// drop every entry as it arrived, including the one on the clipboard,
    /// which is not what anyone means by turning history off.
    pub fn history_entries(&self) -> (n: usize)
        ensures
            n == self.kept_entries(),
    {
        if self.history_limit >= 1 {
            self.history_limit
        } else {
            1
        }
    }

    /// The size cap for one entry.
    pub open spec fn entry_cap(&self) -> usize {
        if as_length(self.max_entry_size) <= MAX_ENTRY_BYTES {
            as_length(self.max_entry_size)
        } else {
            MAX_ENTRY_BYTES as usize
        }
    }

    /// The size cap as a plain number, for comparisons against payloads.
    ///
    /// Never above the protocol ceiling: a larger setting would let a
    /// selection past this check only to have the log refuse it, with an error
    /// naming a limit the user never wrote.
    pub fn max_entry_bytes(&self) -> (n: usize)
        ensures
            n == self.entry_cap(),
    {
        let size: usize = length(self.max_entry_size);
        let ceiling: usize = MAX_ENTRY_BYTES as usize;
        if size <= ceiling {
            size
        } else {
            ceiling
        }
    }

    /// The cap on what one selection of files may weigh.
    pub fn max_file_bytes(&self) -> (n: u64)
        ensures
            n == self.max_file_size,
    {
        self.max_file_size
    }

    /// Whether a mime type must never be captured.
    ///
    /// The password-manager hint is how password managers ask clipboard
    /// managers to leave an entry alone; it is honored by marking the entry
    /// secret rather than by dropping it, so it is not listed here.
    pub fn is_ignored_mime(&self, mime: &str) -> (r: bool)
        ensures
            r == mime::owned_texts(self.ignore_mime@).contains(mime@),
    {
        mime::is_ignored(self.ignore_mime.as_slice(), mime)
    }
}

/// The cap on an entry is the one that was set, as long as the protocol can
/// carry it: four mebibytes; and the history keeps as many entries as was set,
/// one at least.
pub proof fn settings_count_as_they_were_set(settings: Settings)
    ensures
        settings.max_entry_size <= 4 * 1024 * 1024 ==> settings.entry_cap()
            == settings.max_entry_size,
        settings.max_entry_size > 4 * 1024 * 1024 ==> settings.entry_cap() == 4 * 1024 * 1024,
        settings.history_limit >= 1 ==> settings.kept_entries() == settings.history_limit,
        settings.history_limit == 0 ==> settings.kept_entries() == 1,
        settings.history_budget <= usize::MAX ==> as_length(settings.history_budget)
            == settings.history_budget,
{
}


} // verus!
