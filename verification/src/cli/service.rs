//! `yank service`: the daemon as a systemd user service.
//!
//! A user service, not a system one: the daemon needs the session to reach the
//! compositor, and the clipboard belongs to the session.
//!
//! It is deliberately not tied to `graphical-session.target`. The daemon keeps
//! replicating with no compositor in sight and reconnects when one appears, so
//! binding it to the session would only make it miss the entries copied
//! elsewhere while the screen was locked or the session was restarting.

use crate::clip::preview;
use crate::config::name;
use crate::config::name::sanitize_bounded;
use crate::config::service::ServiceState;
use crate::config::{service, Dirs};
use crate::files;
use crate::files::join;
use crate::text;
use vstd::prelude::*;

verus! {

/// Name of the unit.
pub const UNIT: &'static str = "yank.service";

/// Recorded as what was installed, so a unit written here is recognizable as
/// ours later.
pub const LABEL: &'static str = "yank";

/// How long, in seconds, to let a restarted daemon settle before checking it is
/// still there. A daemon that exits at once (a bad binary, or another instance
/// holding the lock) would otherwise look fine.
pub const SETTLE: u64 = 1;

/// Install and manage the background service.
#[derive(Debug)]
pub struct ServiceArgs {
    pub command: ServiceCommand,
}

/// What to do about it.
#[derive(Debug)]
pub enum ServiceCommand {
    /// Write the unit and start it, running the program at a path.
    Install { program: Option<Vec<u8>> },
    /// Stop the service and remove the unit.
    Uninstall,
    Start,
    Stop,
    /// Restart the service, to pick up a changed configuration.
    Restart,
}

/// Where systemd looks for user units that are not the user's own, in the order
/// it searches them. A unit there belongs to whoever configured the system, and
/// ours would shadow it rather than replace it.
pub fn system_unit_dirs() -> (dirs: Vec<&'static str>)
    ensures
        dirs@.len() == 4,
        dirs@[0]@ == "/etc/systemd/user"@,
        dirs@[1]@ == "/run/systemd/user"@,
        dirs@[2]@ == "/usr/local/lib/systemd/user"@,
        dirs@[3]@ == "/usr/lib/systemd/user"@,
{
    let mut dirs: Vec<&'static str> = Vec::new();
    dirs.push("/etc/systemd/user");
    dirs.push("/run/systemd/user");
    dirs.push("/usr/local/lib/systemd/user");
    dirs.push("/usr/lib/systemd/user");
    dirs
}

/// Why a service is left alone.
#[derive(Debug)]
pub enum NotOurs {
    /// Something else installed it.
    ManagedBy(String),
    /// The unit is a symlink, so something else manages it.
    Symlink,
    /// The system provides one of the same name, in that of the directories.
    Provided(usize),
}

/// Why a service is left alone, given who is on record for it, whether the unit
/// is a symlink, and which of the system's directories hold one: the record
/// names another installer, or there is none and the unit is not a file of
/// ours, or ours would shadow one rather than replace it.
pub open spec fn refusal(
    state: Option<service::ServiceView>,
    symlink: bool,
    provided: Seq<bool>,
) -> Option<NotOursView> {
    match state {
        Some(state) => if state.installer == service::CLI@ {
            None
        } else {
            Some(NotOursView::ManagedBy(state.installer))
        },
        None => if symlink {
            Some(NotOursView::Symlink)
        } else {
            match first_true(provided) {
                Some(i) => Some(NotOursView::Provided(i)),
                None => None,
            }
        },
    }
}

/// Why a service is left alone, for contracts.
pub enum NotOursView {
    ManagedBy(Seq<char>),
    Symlink,
    Provided(nat),
}

impl View for NotOurs {
    type V = NotOursView;

    open spec fn view(&self) -> NotOursView {
        match *self {
            NotOurs::ManagedBy(installer) => NotOursView::ManagedBy(installer@),
            NotOurs::Symlink => NotOursView::Symlink,
            NotOurs::Provided(i) => NotOursView::Provided(i as nat),
        }
    }
}

/// The first place that is true.
pub open spec fn first_true(list: Seq<bool>) -> Option<nat>
    decreases list.len(),
{
    if list.len() == 0 {
        None
    } else {
        match first_true(list.drop_last()) {
            Some(i) => Some(i),
            None => if list.last() {
                Some((list.len() - 1) as nat)
            } else {
                None
            },
        }
    }
}

/// Refuses to touch a service this command does not own.
pub fn ensure_ours(state: Option<&ServiceState>, symlink: bool, provided: &[bool]) -> (result:
    Result<(), NotOurs>)
    ensures
        match refusal(
            match state {
                Some(state) => Some(state@),
                None => None,
            },
            symlink,
            provided@,
        ) {
            Some(why) => result matches Err(error) && error@ == why,
            None => result is Ok,
        },
{
    if let Some(state) = state {
        if state.is_ours() {
            return Ok(());
        }
        return Err(NotOurs::ManagedBy(state.installer.clone()));
    }
    if symlink {
        return Err(NotOurs::Symlink);
    }
    let mut i: usize = 0;
    assert(provided@.take(0) =~= Seq::empty());
    while i < provided.len()
        invariant
            i <= provided.len(),
            state is None,
            !symlink,
            first_true(provided@.take(i as int)) is None,
        decreases provided.len() - i,
    {
        assert(provided@.take(i + 1).drop_last() =~= provided@.take(i as int));
        if provided[i] {
            proof {
                lemma_first_true(provided@, i + 1);
            }
            return Err(NotOurs::Provided(i));
        }
        i += 1;
    }
    assert(provided@.take(i as int) =~= provided@);
    Ok(())
}

/// What is first true of some stays first true of more.
proof fn lemma_first_true(list: Seq<bool>, n: int)
    requires
        0 <= n <= list.len(),
        first_true(list.take(n)) is Some,
    ensures
        first_true(list) == first_true(list.take(n)),
    decreases list.len() - n,
{
    if n == list.len() {
        assert(list.take(n) =~= list);
    } else {
        assert(list.take(n + 1).drop_last() =~= list.take(n));
        lemma_first_true(list, n + 1);
    }
}

impl NotOurs {
    /// What is said of it, `unit` being where the unit is and `provider` where
    /// the system's is.
    pub fn text(&self, unit: &str, provider: &str) -> (t: String)
        ensures
            t@ == (match self@ {
                NotOursView::ManagedBy(installer) => "the service is managed by "@ + installer
                    + ": change that configuration instead"@,
                NotOursView::Symlink => unit@
                    + " is a symlink, so something else manages the service: refusing to replace it"@,
                NotOursView::Provided(_) => provider@
                    + " already provides this service: installing would shadow it, not replace it. Change that configuration instead."@,
            }),
    {
        match self {
            NotOurs::ManagedBy(installer) => {
                let mut t = "the service is managed by ".to_owned();
                t.append(installer.as_str());
                t.append(": change that configuration instead");
                t
            },
            NotOurs::Symlink => {
                let mut t = unit.to_owned();
                t.append(
                    " is a symlink, so something else manages the service: refusing to replace it",
                );
                t
            },
            NotOurs::Provided(_) => {
                let mut t = provider.to_owned();
                t.append(
                    " already provides this service: installing would shadow it, not replace it. Change that configuration instead.",
                );
                t
            },
        }
    }
}

/// Why something cannot stand in a unit file.
#[derive(Clone, Copy, Debug, PartialEq, Eq, Structural)]
pub enum QuoteError {
    /// It is not valid UTF-8.
    NotText,
    /// It contains control characters, which a unit file cannot hold.
    Control,
    /// The program path must be absolute.
    Relative,
}

/// A character as it stands inside quotes.
pub open spec fn quoted_char(c: char) -> Seq<char> {
    if c == '"' || c == '\\' {
        seq!['\\', c]
    } else if c == '%' {
        seq!['%', '%']
    } else {
        seq![c]
    }
}

/// Some characters as they stand inside quotes.
pub open spec fn quoted_chars(t: Seq<char>) -> Seq<char>
    decreases t.len(),
{
    if t.len() == 0 {
        Seq::empty()
    } else {
        quoted_chars(t.drop_last()) + quoted_char(t.last())
    }
}

/// Whether a text holds a control character.
pub open spec fn has_control(t: Seq<char>) -> bool {
    exists|i: int| 0 <= i < t.len() && text::control(#[trigger] t[i])
}

/// An argument as it stands in a unit file, or why it cannot.
pub open spec fn quoted(arg: Seq<u8>) -> Result<Seq<char>, QuoteError> {
    if !vstd::utf8::valid_utf8(arg) {
        Err(QuoteError::NotText)
    } else {
        let t = vstd::utf8::decode_utf8(arg);
        if has_control(t) {
            Err(QuoteError::Control)
        } else {
            Ok(seq!['"'] + quoted_chars(t) + seq!['"'])
        }
    }
}

/// What quoting gave, for contracts.
pub open spec fn quote_view(result: Result<String, QuoteError>) -> Result<Seq<char>, QuoteError> {
    match result {
        Ok(t) => Ok(t@),
        Err(error) => Err(error),
    }
}

/// Quotes one argument of an `ExecStart` line.
///
/// systemd expands `%` specifiers over the whole value before splitting it into
/// arguments, and splits on unquoted whitespace, so a path with a space or a
/// percent sign would otherwise become two arguments or an entirely different
/// path. A newline cannot be represented at all, since it would end the
/// directive.
pub fn quote(arg: &[u8]) -> (result: Result<String, QuoteError>)
    ensures
        quote_view(result) == quoted(arg@),
{
    let t = match text::as_text(arg) {
        Some(t) => t,
        None => {
            return Err(QuoteError::NotText);
        },
    };
    let chars = text::chars_of(t);
    let mut out = String::new();
    out.push('"');
    let mut i: usize = 0;
    assert(t@.take(0) =~= Seq::empty());
    assert(out@ =~= seq!['"'] + quoted_chars(t@.take(0)));
    while i < chars.len()
        invariant
            i <= chars.len(),
            chars@ == t@,
            t@ == vstd::utf8::decode_utf8(arg@),
            vstd::utf8::valid_utf8(arg@),
            forall|j: int| 0 <= j < i ==> !text::control(#[trigger] t@[j]),
            out@ == seq!['"'] + quoted_chars(t@.take(i as int)),
        decreases chars.len() - i,
    {
        let c = chars[i];
        if text::is_control(c) {
            assert(text::control(t@[i as int]));
            return Err(QuoteError::Control);
        }
        assert(t@.take(i + 1).drop_last() =~= t@.take(i as int));
        let ghost before = out@;
        if c == '"' || c == '\\' {
            out.push('\\');
            out.push(c);
        } else if c == '%' {
            out.push('%');
            out.push('%');
        } else {
            out.push(c);
        }
        assert(out@ =~= before + quoted_char(c));
        i += 1;
        assert(out@ =~= seq!['"'] + quoted_chars(t@.take(i as int)));
    }
    assert(t@.take(i as int) =~= t@);
    let ghost before = out@;
    out.push('"');
    assert(out@ =~= before + seq!['"']);
    Ok(out)
}

/// The command line a unit runs, up to `daemon`: the program, and the directory
/// when it is not where the daemon would look by itself.
pub open spec fn command_line(program: Seq<u8>, dir: Option<Seq<u8>>) -> Result<
    Seq<char>,
    QuoteError,
> {
    if !(program.len() > 0 && program[0] == 0x2f) {
        Err(QuoteError::Relative)
    } else {
        match quoted(program) {
            Err(error) => Err(error),
            Ok(first) => match dir {
                None => Ok(first),
                Some(dir) => match quoted(dir) {
                    Err(error) => Err(error),
                    Ok(last) => Ok(first + " --dir "@ + last),
                },
            },
        }
    }
}

/// The command line a unit runs, up to `daemon`.
pub fn command(program: &[u8], dirs: &Dirs) -> (result: Result<String, QuoteError>)
    ensures
        quote_view(result) == command_line(
            program@,
            if dirs@.custom {
                Some(dirs@.config)
            } else {
                None
            },
        ),
{
    if !(program.len() > 0 && program[0] == 0x2f) {
        return Err(QuoteError::Relative);
    }
    let mut line = match quote(program) {
        Ok(line) => line,
        Err(error) => {
            return Err(error);
        },
    };
    if dirs.is_custom() {
        match quote(dirs.config_root()) {
            Ok(dir) => {
                line.append(" --dir ");
                line.append(dir.as_str());
            },
            Err(error) => {
                return Err(error);
            },
        }
    }
    Ok(line)
}

/// What comes before the command of a unit.
pub const UNIT_HEAD: &'static str =
    "# Written by `yank service install`. Anything you change here is
# lost on the next install; there is `yank service install --program`
# for the one thing worth changing.

[Unit]
Description=yank clipboard daemon
# Wanted, not required: with no compositor the daemon still
# replicates, and it connects to one as soon as there is one.
After=graphical-session.target

[Service]
Type=simple
ExecStart=";

/// What comes after the command of a unit.
pub const UNIT_TAIL: &'static str = " daemon
Restart=on-failure
RestartSec=5
Environment=RUST_LOG=yank=info
# The daemon holds clipboard contents, which may be passwords.
LimitCORE=0
NoNewPrivileges=true

[Install]
WantedBy=default.target
";

/// The unit file, with `command` as its `ExecStart`.
pub fn unit(command: &str) -> (t: String)
    ensures
        t@ == UNIT_HEAD@ + command@ + UNIT_TAIL@,
{
    let mut t = UNIT_HEAD.to_owned();
    t.append(command);
    t.append(UNIT_TAIL);
    t
}

/// Where the user's own unit is, below where the user's configuration is.
pub fn unit_path(config: &[u8]) -> (path: Vec<u8>)
    ensures
        path@ == files::joined(
            files::joined(
                files::joined(config@, vstd::utf8::encode_utf8("systemd"@)),
                vstd::utf8::encode_utf8("user"@),
            ),
            vstd::utf8::encode_utf8(UNIT@),
        ),
{
    let systemd = join(config, "systemd".as_bytes());
    let user = join(systemd.as_slice(), "user".as_bytes());
    join(user.as_slice(), UNIT.as_bytes())
}

/// What is said of a `systemctl` that failed: what it was told, and what it
/// said, fit to print.
pub fn systemctl_failed(args: &str, stderr: &[u8]) -> (t: String)
    ensures
        t@ == "systemctl --user "@ + args@ + " failed: "@ + name::sanitized(
            name::bounded(preview::trimmed(preview::lossy_text(stderr@))),
        ),
{
    let said = preview::from_utf8_lossy(stderr);
    let bare = text::text_of(preview::trim(text::chars_of(said.as_str()).as_slice()).as_slice());
    let mut t = "systemctl --user ".to_owned();
    t.append(args);
    t.append(" failed: ");
    t.append(sanitize_bounded(bare.as_str()).as_str());
    t
}

/// What an argument was, read back from how it stands inside quotes: a doubled
/// percent sign is one, and what follows a backslash stands for itself.
pub open spec fn unquoted(t: Seq<char>) -> Seq<char>
    decreases t.len(),
{
    if t.len() == 0 {
        Seq::empty()
    } else if t.len() >= 2 && (t[0] == '\\' || (t[0] == '%' && t[1] == '%')) {
        seq![t[1]] + unquoted(t.skip(2))
    } else {
        seq![t[0]] + unquoted(t.skip(1))
    }
}

/// Reading back characters quoted one by one gives them in turn.
proof fn lemma_unquoted(head: Seq<char>, tail: Seq<char>)
    ensures
        unquoted(quoted_chars(head) + tail) == head + unquoted(tail),
    decreases head.len(),
{
    if head.len() == 0 {
        assert(quoted_chars(head) + tail =~= tail);
        assert(head + unquoted(tail) =~= unquoted(tail));
    } else {
        let c = head.last();
        let rest = head.drop_last();
        let more = quoted_char(c) + tail;
        assert(quoted_chars(head) + tail =~= quoted_chars(rest) + more);
        lemma_unquoted(rest, more);
        if c == '"' || c == '\\' || c == '%' {
            assert(more.skip(2) =~= tail);
            assert(more[1] == c);
        } else {
            assert(more[0] == c);
            assert(more.skip(1) =~= tail);
        }
        assert(unquoted(more) == seq![c] + unquoted(tail));
        assert(rest + (seq![c] + unquoted(tail)) =~= head + unquoted(tail));
    }
}

/// An argument survives the unit file: unquoting what stands between the quotes
/// gives it back.
pub proof fn arguments_survive_the_unit_file(arg: Seq<u8>)
    requires
        quoted(arg) is Ok,
    ensures
        ({
            let t = quoted(arg)->Ok_0;
            &&& t.len() >= 2 && t[0] == '"' && t.last() == '"'
            &&& unquoted(t.subrange(1, t.len() - 1)) == vstd::utf8::decode_utf8(arg)
        }),
{
    let inner = vstd::utf8::decode_utf8(arg);
    let t = quoted(arg)->Ok_0;
    assert(t.subrange(1, t.len() - 1) =~= quoted_chars(inner) + Seq::empty());
    lemma_unquoted(inner, Seq::empty());
    assert(inner + Seq::<char>::empty() =~= inner);
}

/// A service is left alone exactly when a record names another installer, or,
/// without a record, when the unit is a symlink or one of the system's
/// directories holds one, the first of which is named.
pub proof fn which_services_are_left_alone(
    state: service::ServiceView,
    symlink: bool,
    provided: Seq<bool>,
    i: nat,
)
    ensures
        refusal(Some(state), symlink, provided) is None <==> state.installer == "cli"@,
        state.installer != "cli"@ ==> refusal(Some(state), symlink, provided) == Some(
            NotOursView::ManagedBy(state.installer),
        ),
        refusal(None, true, provided) == Some(NotOursView::Symlink),
        refusal(None, false, provided) is None <==> forall|j: int|
            0 <= j < provided.len() ==> !#[trigger] provided[j],
        refusal(None, false, provided) == Some(NotOursView::Provided(i)) <==> (i < provided.len()
            && provided[i as int] && forall|j: int| 0 <= j < i ==> !#[trigger] provided[j]),
{
    lemma_first(provided);
    match first_true(provided) {
        Some(at) => {
            assert(provided[at as int]);
            if i < provided.len() && provided[i as int] && forall|j: int|
                0 <= j < i ==> !#[trigger] provided[j] {
                assert(!(at < i));
                assert(!(i < at));
            }
        },
        None => {},
    }
}

/// What comes first is true, and nothing before it.
proof fn lemma_first(list: Seq<bool>)
    ensures
        match first_true(list) {
            Some(i) => i < list.len() && list[i as int] && forall|j: int|
                0 <= j < i ==> !#[trigger] list[j],
            None => forall|j: int| 0 <= j < list.len() ==> !#[trigger] list[j],
        },
    decreases list.len(),
{
    if list.len() > 0 {
        let before = list.drop_last();
        lemma_first(before);
        assert forall|j: int| 0 <= j < before.len() implies before[j] == #[trigger] list[j] by {}
        match first_true(before) {
            Some(i) => {
                assert(before[i as int] == list[i as int]);
            },
            None => {},
        }
    }
}

/// Whatever else the program is started with, an argument is quoted whenever it
/// is text without a control character, and only then; a command line is
/// written whenever its parts can be quoted and the program is named from the
/// root on.
pub proof fn which_command_lines_can_be_written(program: Seq<u8>, dir: Seq<u8>, quoted_dir: Seq<char>)
    ensures
        quoted(dir) is Ok <==> vstd::utf8::valid_utf8(dir) && forall|i: int|
            0 <= i < vstd::utf8::decode_utf8(dir).len() ==> !text::control(
                #[trigger] vstd::utf8::decode_utf8(dir)[i],
            ),
        command_line(program, None) is Ok <==> program.len() > 0 && program[0] == '/' as u8
            && quoted(program) is Ok,
        command_line(program, Some(dir)) is Ok <==> command_line(program, None) is Ok && quoted(
            dir,
        ) is Ok,
        command_line(program, None) is Ok && quoted(dir) == Ok::<Seq<char>, QuoteError>(quoted_dir)
            ==> command_line(program, Some(dir))->Ok_0 == command_line(program, None)->Ok_0 + seq![
            ' ',
            '-',
            '-',
            'd',
            'i',
            'r',
            ' ',
        ] + quoted_dir,
{
    reveal_strlit(" --dir ");
    assert('/' as u8 == 0x2f);
    assert(" --dir "@ =~= seq![' ', '-', '-', 'd', 'i', 'r', ' ']);
}

} // verus!
