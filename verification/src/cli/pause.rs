//! `yank pause` and `yank resume`.
//!
//! The two directions are separate because the reasons to stop them are:
//! sharing what you copy here is a privacy question, and taking what others
//! copy is an interruption question. Naming neither means both.

use crate::cli::ui;
use crate::clip::model::{Pause, Switch};
use crate::daemon::control::protocol::Request;
use crate::time;
use crate::time::{Span, Time};
use vstd::prelude::*;

verus! {

/// Stop sharing the clipboard, in one direction or both.
#[derive(Clone, Copy, Debug)]
pub struct PauseArgs {
    /// Stop sharing what is copied here.
    pub capture: bool,
    /// Stop taking what other machines copy.
    pub apply: bool,
    /// Resume on its own after this long.
    pub lasting: Option<Span>,
}

/// Start sharing the clipboard again.
#[derive(Clone, Copy, Debug)]
pub struct ResumeArgs {
    /// Resume sharing what is copied here.
    pub capture: bool,
    /// Resume taking what other machines copy.
    pub apply: bool,
}

/// What the flags say of a direction: that it is to be switched, when they name
/// it or name none.
pub open spec fn named(this: bool, other: bool, switch: Switch) -> Option<Switch> {
    if this || !other {
        Some(switch)
    } else {
        None
    }
}

/// Which directions the flags name. Naming none means both, which is what a
/// bare `yank pause` should do.
pub fn directions(capture: bool, apply: bool, switch: Switch) -> (named: (
    Option<Switch>,
    Option<Switch>,
))
    ensures
        named.0 == self::named(capture, apply, switch),
        named.1 == self::named(apply, capture, switch),
{
    if !capture && !apply {
        return (Some(switch), Some(switch));
    }
    (
        if capture {
            Some(switch)
        } else {
            None
        },
        if apply {
            Some(switch)
        } else {
            None
        },
    )
}

/// What `yank pause` asks of the daemon.
pub fn pause(args: &PauseArgs, now: Time) -> (request: Request)
    ensures
        ({
            let switch = Switch::Paused {
                until: match args.lasting {
                    Some(span) => Some(now.later(span)),
                    None => None,
                },
            };
            request == (Request::SetPause {
                capture: named(args.capture, args.apply, switch),
                apply: named(args.apply, args.capture, switch),
            })
        }),
{
    let until = match args.lasting {
        Some(span) => Some(now.plus(span)),
        None => None,
    };
    let (capture, apply) = directions(args.capture, args.apply, Switch::Paused { until });
    Request::SetPause { capture, apply }
}

/// What `yank resume` asks of the daemon.
pub fn resume(args: &ResumeArgs) -> (request: Request)
    ensures
        request == (Request::SetPause {
            capture: named(args.capture, args.apply, Switch::On),
            apply: named(args.apply, args.capture, Switch::On),
        }),
{
    let (capture, apply) = directions(args.capture, args.apply, Switch::On);
    Request::SetPause { capture, apply }
}

/// When a paused direction comes back on its own.
pub open spec fn resuming(switch: Switch, now: Time) -> Seq<char> {
    match switch {
        Switch::Paused { until: Some(until) } => " (resumes in "@ + ui::duration_text(
            until.elapsed(now).whole_secs() as nat,
        ) + ")"@,
        _ => Seq::empty(),
    }
}

/// When a paused direction comes back on its own.
pub fn resumes(switch: Switch, now: Time) -> (t: String)
    ensures
        t@ == resuming(switch, now),
{
    match switch {
        Switch::Paused { until: Some(until) } => {
            let mut t = " (resumes in ".to_owned();
            let left = ui::duration(until.since(now).as_secs());
            t.append(left.as_str());
            t.append(")");
            t
        },
        _ => String::new(),
    }
}

/// One line saying what is running at a time.
pub open spec fn described(pause: Pause, now: Time) -> Seq<char> {
    match (pause.capture.running(now), pause.apply.running(now)) {
        (true, true) => ui::painted(ui::Style::Good, "Sharing in both directions"@),
        (false, false) => ui::painted(ui::Style::Warn, "Paused"@ + resuming(pause.capture, now)),
        (true, false) => ui::painted(
            ui::Style::Warn,
            "Sharing what is copied here, not taking what others copy"@ + resuming(
                pause.apply,
                now,
            ),
        ),
        (false, true) => ui::painted(
            ui::Style::Warn,
            "Taking what others copy, not sharing what is copied here"@ + resuming(
                pause.capture,
                now,
            ),
        ),
    }
}

/// One line saying what is running at a time.
pub fn describe_at(pause: Pause, now: Time) -> (t: String)
    ensures
        t@ == described(pause, now),
{
    match (pause.capture.is_on(now), pause.apply.is_on(now)) {
        (true, true) => ui::good("Sharing in both directions"),
        (false, false) => {
            let mut t = "Paused".to_owned();
            t.append(resumes(pause.capture, now).as_str());
            ui::warn(t.as_str())
        },
        (true, false) => {
            let mut t = "Sharing what is copied here, not taking what others copy".to_owned();
            t.append(resumes(pause.apply, now).as_str());
            ui::warn(t.as_str())
        },
        (false, true) => {
            let mut t = "Taking what others copy, not sharing what is copied here".to_owned();
            t.append(resumes(pause.capture, now).as_str());
            ui::warn(t.as_str())
        },
    }
}

/// One line saying what is running now.
pub fn describe(pause: Pause) -> (t: String)
    ensures
        exists|now: Time| t@ == described(pause, now),
{
    let now = time::now();
    describe_at(pause, now)
}

/// Naming no direction is naming both.
pub proof fn naming_none_means_both(switch: Switch)
    ensures
        named(false, false, switch) == named(true, true, switch),
        named(false, false, switch) == Some(switch),
{
}

/// Naming no direction means both, naming both too; naming one leaves the other
/// as it is.
pub proof fn which_directions_are_meant(switch: Switch)
    ensures
        forall|both: bool| #[trigger] named(both, both, switch) == Some(switch),
        named(true, false, switch) == Some(switch),
        named(false, true, switch) is None,
{
}

/// Of a direction that is paused for a while it is told in how many seconds it
/// comes back, and nothing of one that is not.
pub proof fn it_is_told_when_sharing_comes_back(now: Time, until: Time, secs: u64)
    requires
        now.nanos + secs * 1_000_000_000 <= until.nanos < now.nanos + (secs + 1) * 1_000_000_000,
    ensures
        resuming(Switch::Paused { until: Some(until) }, now) == " (resumes in "@
            + ui::duration_text(secs as nat) + seq![')'],
        resuming(Switch::Paused { until: None }, now).len() == 0,
        resuming(Switch::On, now).len() == 0,
{
    reveal_strlit(")");
    let left = until.elapsed(now);
    assert(left.nanos == until.nanos - now.nanos);
    assert(left.nanos / 1_000_000_000 == secs);
}

} // verus!
