//! What the command line says, and what it makes of its arguments.

pub mod clip;
pub mod daemon;
pub mod pause;
pub mod peer;
pub mod service;
pub mod status;
pub mod ui;

use vstd::prelude::*;

verus! {

/// Outcomes that are situations to act on, not failures to debug.
///
/// They are printed as a plain sentence, without the dressing of an error, and
/// end the command with the sysexits code that names the situation.
#[derive(Debug)]
pub enum Situation {
    DaemonNotRunning,
    FilesPending { label: String },
}

impl Situation {
    /// What is said of it.
    pub open spec fn told(self) -> Seq<char> {
        match self {
            Situation::DaemonNotRunning =>
                "The yank daemon is not running. Start it with `yank service start`."@,
            Situation::FilesPending { label } => "The files of "@ + label@
                + " have not arrived; the daemon is still trying."@,
        }
    }

    /// What is said of it.
    pub fn text(&self) -> (t: String)
        ensures
            t@ == self.told(),
    {
        match self {
            Situation::DaemonNotRunning =>
                "The yank daemon is not running. Start it with `yank service start`.".to_owned(),
            Situation::FilesPending { label } => {
                let mut t = "The files of ".to_owned();
                t.append(label.as_str());
                t.append(" have not arrived; the daemon is still trying.");
                t
            },
        }
    }

    /// What the command ends with.
    pub fn exit_code(&self) -> (code: u8)
        ensures
            code == (match self {
                Situation::DaemonNotRunning => 69u8,
                Situation::FilesPending { .. } => 75u8,
            }),
    {
        match self {
            Situation::DaemonNotRunning => 69,
            Situation::FilesPending { .. } => 75,
        }
    }
}

/// What a command that failed prints, and what it ends with.
pub fn report_error(situation: Option<&Situation>, error: &str) -> (report: (String, u8))
    ensures
        report.0@ == ui::painted(
            ui::Style::Bad,
            match situation {
                Some(situation) => situation.told(),
                None => "Error: "@ + error@,
            },
        ),
        report.1 == (match situation {
            Some(Situation::DaemonNotRunning) => 69u8,
            Some(Situation::FilesPending { .. }) => 75u8,
            None => 1u8,
        }),
{
    match situation {
        Some(situation) => {
            let t = situation.text();
            (ui::bad(t.as_str()), situation.exit_code())
        },
        None => {
            let mut t = "Error: ".to_owned();
            t.append(error);
            (ui::bad(t.as_str()), 1)
        },
    }
}

/// What is said of an answer that does not fit the request.
pub fn unexpected(response: &str) -> (t: String)
    ensures
        t@ == "unexpected answer from the daemon: "@ + response@,
{
    let mut t = "unexpected answer from the daemon: ".to_owned();
    t.append(response);
    t
}

} // verus!
