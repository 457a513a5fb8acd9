//! A clipboard shared between the machines of one person.

pub mod cli;
pub mod clip;
pub mod config;
pub mod daemon;
pub mod encoding;
pub mod files;
pub mod log;
pub mod net;
pub mod ordmap;
pub mod text;
pub mod time;
pub mod word;

use vstd::prelude::*;

verus! {

/// The version of the program, with the source revision when it is known.
pub fn format_version(cargo_version: &str, revision: Option<&str>) -> (version: String)
    ensures
        version@ == (match revision {
            Some(revision) => cargo_version@ + "-"@ + revision@,
            None => cargo_version@,
        }),
{
    let mut version = cargo_version.to_owned();
    if let Some(revision) = revision {
        version.append("-");
        version.append(revision);
    }
    version
}

} // verus!
