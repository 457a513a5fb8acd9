//! `yank daemon`: run the daemon in the foreground.
//!
//! What the installed service runs, and what to run by hand when something
//! needs looking at.

use vstd::prelude::*;

verus! {

/// Run the daemon in the foreground.
#[derive(Clone, Copy, Debug)]
pub struct DaemonArgs {}

/// What is logged unless the environment says otherwise.
pub const LOG_DIRECTIVE: &'static str = "yank=info";

} // verus!
