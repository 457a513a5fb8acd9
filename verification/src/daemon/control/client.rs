//! The command line's side of the control socket.

use crate::daemon::control::protocol::Response;
use vstd::prelude::*;

verus! {

/// What came of waiting for the daemon's answer.
#[derive(Debug)]
pub enum Heard {
    Answer(Response),
    /// What arrived could not be read, for that reason.
    Unreadable(String),
    /// Nothing arrived in time.
    Nothing,
}

/// Turns what came of a request into the answer, or what to fail with: a
/// refusal of the daemon is a failure, so callers only match the shape they
/// asked for.
pub fn settle(heard: Heard) -> (result: Result<Response, String>)
    ensures
        match heard {
            Heard::Answer(Response::Error(message)) => result == Err::<Response, String>(message),
            Heard::Answer(response) => result == Ok::<Response, String>(response),
            Heard::Unreadable(reason) => result == Err::<Response, String>(reason),
            Heard::Nothing => result matches Err(message) && message@
                == "the daemon did not answer"@,
        },
{
    match heard {
        Heard::Answer(Response::Error(message)) => Err(message),
        Heard::Answer(response) => Ok(response),
        Heard::Unreadable(reason) => Err(reason),
        Heard::Nothing => Err("the daemon did not answer".to_owned()),
    }
}

} // verus!
