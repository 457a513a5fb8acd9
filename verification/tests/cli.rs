//! What the command line prints and asks for.

use yank::cli::clip::{
    clear, cleared, copied, copy, get, got, list, listed, paste, pasted, pick, preview,
    reads_input, removed, rm, ClearArgs, CopyArgs, GetArgs, ListArgs, PasteArgs, Pasted, PickArgs,
    RmArgs,
};
use yank::cli::pause::{describe, describe_at, pause, resume, PauseArgs, ResumeArgs};
use yank::cli::peer;
use yank::cli::service::{
    command, ensure_ours, quote, system_unit_dirs, systemctl_failed, unit, unit_path, NotOurs,
    QuoteError,
};
use yank::cli::status;
use yank::cli::ui::{duration, fill, width};
use yank::cli::{report_error, unexpected, Situation};
use yank::clip::model::{Pause, Switch};
use yank::config::{BaseDirs, Dirs, MachineKey, ServiceState};
use yank::daemon::control::client::{settle, Heard};
use yank::daemon::control::{
    ClipboardStatus, ConnectionStatus, HistoryEntry, PeerStatus, Request, Response, Route, Status,
};
use yank::time::{Span, Time};

const RED: &str = "\u{1b}[31m";
const GREEN: &str = "\u{1b}[32m";
const YELLOW: &str = "\u{1b}[33m";
const BOLD: &str = "\u{1b}[1m";
const DIM: &str = "\u{1b}[2m";
const OFF: &str = "\u{1b}[0m";

/// A line as it reads without its colors.
fn bare(line: &str) -> String {
    let mut line = line.to_owned();
    for code in [RED, GREEN, YELLOW, BOLD, DIM, OFF] {
        line = line.replace(code, "");
    }
    line
}

#[test]
fn arguments_survive_the_unit_file() {
    assert_eq!(quote(b"/usr/bin/yank").unwrap(), "\"/usr/bin/yank\"");
    // A space would split the argument in two, and a percent sign is where
    // systemd substitutes something else entirely.
    assert_eq!(
        quote(b"/opt/my apps/yank").unwrap(),
        "\"/opt/my apps/yank\"",
    );
    assert_eq!(quote(b"/o%h/yank").unwrap(), "\"/o%%h/yank\"");
    assert_eq!(quote(br#"/a"b\c"#).unwrap(), r#""/a\"b\\c""#);

    assert!(quote(b"/a\nb").is_err());
    assert_eq!(quote(b"/a\nb"), Err(QuoteError::Control));
    assert_eq!(quote(b"/a\xff"), Err(QuoteError::NotText));
}

/// The generated unit has to be a unit: one directive per line, and every
/// section systemd needs to enable and run it.
#[test]
fn the_unit_is_well_formed() {
    let unit = unit(&quote(b"/usr/bin/yank").unwrap());

    assert!(unit.contains("[Unit]"));
    assert!(unit.contains("[Service]"));
    assert!(unit.contains("[Install]"));
    assert!(unit.contains("ExecStart=\"/usr/bin/yank\" daemon"));
    assert!(unit.lines().all(|line| !line.contains('\r')));
    assert!(unit.lines().all(|line| !line.starts_with(' ')));
}

fn base() -> BaseDirs {
    BaseDirs {
        config: b"/home/x/.config".to_vec(),
        state: None,
        data: b"/home/x/.local/share".to_vec(),
        runtime: None,
    }
}

#[test]
fn a_custom_directory_is_baked_into_the_command() {
    let plain = Dirs::new(None, base());
    assert_eq!(
        command(b"/usr/bin/yank", &plain).unwrap(),
        "\"/usr/bin/yank\""
    );
    let custom = Dirs::new(Some(b"/tmp/a b".to_vec()), base());
    assert_eq!(
        command(b"/usr/bin/yank", &custom).unwrap(),
        "\"/usr/bin/yank\" --dir \"/tmp/a b\""
    );
    assert_eq!(command(b"yank", &plain), Err(QuoteError::Relative));
    assert_eq!(
        unit_path(b"/home/x/.config"),
        b"/home/x/.config/systemd/user/yank.service".to_vec()
    );
}

#[test]
fn a_service_that_is_not_ours_is_left_alone() {
    let ours = ServiceState::recorded_cli("yank");
    assert!(ensure_ours(Some(&ours), true, &[true]).is_ok());
    let theirs = ServiceState {
        installer: "nix".to_owned(),
        label: "yank".to_owned(),
    };
    let refused = ensure_ours(Some(&theirs), false, &[]).unwrap_err();
    assert_eq!(
        refused.text("", ""),
        "the service is managed by nix: change that configuration instead"
    );
    assert!(matches!(
        ensure_ours(None, true, &[true]),
        Err(NotOurs::Symlink)
    ));
    assert!(matches!(
        ensure_ours(None, false, &[false, true, true, false]),
        Err(NotOurs::Provided(1))
    ));
    assert!(ensure_ours(None, false, &[false; 4]).is_ok());
    assert_eq!(system_unit_dirs().len(), 4);
    assert_eq!(
        systemctl_failed("start yank.service", b" no\x1b[2K unit \n"),
        "systemctl --user start yank.service failed: no?[2K unit"
    );
}

#[test]
fn durations_fit_a_column() {
    assert_eq!(duration(0), "0s");
    assert_eq!(duration(43), "43s");
    assert_eq!(duration(12 * 60 + 59), "12m");
    assert_eq!(duration(2 * 3600 + 4 * 60), "2h 4m");
    assert_eq!(duration(3 * 86400 + 5), "3d");
}

#[test]
fn columns_line_up() {
    assert_eq!(width(&[]), 0);
    assert_eq!(width(&["a", "été", "ab"]), 3);
    let mut line = "ab".to_owned();
    fill(&mut line, "ab", 4);
    assert_eq!(line, "ab  ");
    fill(&mut line, "abcdef", 4);
    assert_eq!(line, "ab  ");
}

#[test]
fn naming_no_direction_names_both() {
    let now = Time { nanos: 1 };
    let args = |capture, apply| PauseArgs {
        capture,
        apply,
        lasting: Some(Span::from_secs(60)),
    };
    let until = Some(Time {
        nanos: 60_000_000_001,
    });
    let paused = Switch::Paused { until };
    assert!(matches!(
        pause(&args(false, false), now),
        Request::SetPause { capture: Some(a), apply: Some(b) } if a == paused && b == paused
    ));
    assert!(matches!(
        pause(&args(true, false), now),
        Request::SetPause { capture: Some(a), apply: None } if a == paused
    ));
    assert!(matches!(
        resume(&ResumeArgs {
            capture: false,
            apply: true
        }),
        Request::SetPause {
            capture: None,
            apply: Some(Switch::On)
        }
    ));
}

#[test]
fn what_is_running_is_said_in_a_line() {
    let now = Time { nanos: 0 };
    let off = Switch::Paused { until: None };
    let for_a_while = Switch::Paused {
        until: Some(Time {
            nanos: 90_000_000_000,
        }),
    };
    let line = |capture, apply| describe_at(Pause { capture, apply }, now);
    assert_eq!(
        line(Switch::On, Switch::On),
        format!("{GREEN}Sharing in both directions{OFF}")
    );
    assert_eq!(line(off, off), format!("{YELLOW}Paused{OFF}"));
    assert_eq!(
        line(for_a_while, off),
        format!("{YELLOW}Paused (resumes in 1m){OFF}")
    );
    assert_eq!(
        bare(&line(Switch::On, for_a_while)),
        "Sharing what is copied here, not taking what others copy (resumes in 1m)"
    );
    assert_eq!(
        bare(&line(off, Switch::On)),
        "Taking what others copy, not sharing what is copied here"
    );
    assert_eq!(
        describe(Pause::default()),
        format!("{GREEN}Sharing in both directions{OFF}")
    );
}

fn entry(label: &str, origin: &str, age_secs: u64, selected: bool) -> HistoryEntry {
    HistoryEntry {
        label: label.to_owned(),
        preview: "hello".to_owned(),
        mime: "text/plain".to_owned(),
        size: 5,
        secret: false,
        files: 0,
        origin: origin.to_owned(),
        age_secs,
        expires_in_secs: None,
        selected,
    }
}

#[test]
fn the_history_is_listed_in_columns() {
    let entries = vec![
        entry("abcdef-12", "desktop", 41, true),
        entry("abcdef-3", "lap", 7200, false),
    ];
    let lines: Vec<String> = listed(&entries, false).iter().map(|line| bare(line)).collect();
    assert_eq!(
        lines,
        vec![
            "* abcdef-12 desktop  41s hello",
            "  abcdef-3  lap     2h 0m hello",
        ]
    );
    assert_eq!(listed(&entries, true), vec!["abcdef-12", "abcdef-3"]);
    assert_eq!(
        listed(&Vec::new(), false),
        vec![format!("{DIM}The shared history is empty.{OFF}")]
    );
}

#[test]
fn a_secret_with_a_lifetime_is_set_off() {
    let secret = HistoryEntry {
        preview: "<secret>".to_owned(),
        secret: true,
        expires_in_secs: Some(30),
        ..entry("a-1", "desktop", 3, false)
    };
    assert_eq!(
        preview(&secret),
        format!("{YELLOW}<secret>{OFF} {YELLOW}(gone in 30s){OFF}")
    );
    assert_eq!(
        bare(&status::selection(&secret)),
        "<secret> (gone in 30s) — desktop, 3s ago"
    );
}

#[test]
fn the_status_reads_like_this() {
    let key = MachineKey::generate().endpoint_id();
    let peer = |name: &str, connection| PeerStatus {
        name: name.to_owned(),
        endpoint: key,
        connection,
    };
    let status = Status {
        endpoint: key,
        uptime_secs: 8040,
        version: "0.1.0".to_owned(),
        clipboard: ClipboardStatus {
            backend: None,
            pause: Pause::default(),
            entries: 62,
            selection: Some(entry("a-1", "desktop", 41, true)),
        },
        peers: vec![
            peer(
                "desktop",
                ConnectionStatus::Connected {
                    route: Some(Route::Direct {
                        addr: "[2a01::1]:57148".to_owned(),
                        rtt_ms: 3,
                    }),
                    since_secs: 7980,
                },
            ),
            peer("lap", ConnectionStatus::Backoff { retry_in_secs: 8 }),
            peer("new", ConnectionStatus::Connecting),
        ],
    };
    let lines: Vec<String> = status::lines(&status, Time { nanos: 0 })
        .iter()
        .map(|line| bare(line))
        .collect();
    assert_eq!(
        lines,
        vec![
            format!("This machine {}", key.text()),
            "  yank 0.1.0, up for 2h 14m".to_owned(),
            "  clipboard connected".to_owned(),
            "  Sharing in both directions".to_owned(),
            String::new(),
            "Clipboard".to_owned(),
            "  hello — desktop, 41s ago".to_owned(),
            "  62 entries shared".to_owned(),
            String::new(),
            "Machines".to_owned(),
            "  desktop  connected direct [2a01::1]:57148, 3ms, for 2h 13m".to_owned(),
            "  lap      offline, retrying in 8s".to_owned(),
            "  new      connecting".to_owned(),
        ]
    );
}

#[test]
fn an_empty_status_says_so() {
    let status = Status {
        endpoint: MachineKey::generate().endpoint_id(),
        uptime_secs: 1,
        version: "0.1.0".to_owned(),
        clipboard: ClipboardStatus {
            backend: Some("no compositor".to_owned()),
            pause: Pause::default(),
            entries: 0,
            selection: None,
        },
        peers: Vec::new(),
    };
    let lines = status::lines(&status, Time { nanos: 0 });
    assert_eq!(bare(&lines[2]), "  clipboard down: no compositor");
    assert_eq!(bare(&lines[6]), "  empty");
    assert_eq!(
        bare(&lines[10]),
        "  none paired yet; run `yank peer add` to add one"
    );
    assert!(matches!(
        status::request(&status::StatusArgs {}),
        Request::Status
    ));
}

fn copy_args(text: &[&str]) -> CopyArgs {
    CopyArgs {
        text: text.iter().map(|word| (*word).to_owned()).collect(),
        files: false,
        ttl: Some(Span::from_secs(90)),
        secret: true,
        mime: "text/plain".to_owned(),
    }
}

#[test]
fn copying_takes_the_words_or_the_input() {
    assert!(reads_input(&copy_args(&[])));
    assert!(!reads_input(&copy_args(&["hi"])));
    let Request::Copy {
        mime,
        bytes,
        secret,
        ttl_secs,
    } = copy(copy_args(&["hello", "there"]), b"ignored".to_vec())
    else {
        panic!("expected a copy");
    };
    assert_eq!(
        (mime.as_str(), bytes.as_slice(), secret, ttl_secs),
        ("text/plain", b"hello there".as_slice(), true, Some(90))
    );
    assert!(matches!(
        copy(copy_args(&[]), b"piped\n".to_vec()),
        Request::Copy { bytes, .. } if bytes == b"piped\n"
    ));
    let files = CopyArgs {
        files: true,
        ..copy_args(&["/home/x/photos"])
    };
    assert!(matches!(
        copy(files, Vec::new()),
        Request::CopyFiles { paths, .. } if paths == vec!["/home/x/photos"]
    ));
}

#[test]
fn pasting_gives_a_pipe_exactly_the_bytes() {
    let args = PasteArgs {
        entry: Some("abc".to_owned()),
        mime: false,
        mime_type: None,
    };
    assert!(matches!(
        paste(&args),
        Request::Paste { entry: Some(entry), mime: None } if entry == "abc"
    ));
    let print = |bytes: &[u8], terminal| {
        match pasted(&args, "text/plain".to_owned(), Vec::new(), bytes.to_vec(), terminal) {
            Pasted::Bytes(out) => out,
            Pasted::Lines(_) => panic!("expected bytes"),
        }
    };
    assert_eq!(print(b"hi", false), b"hi");
    assert_eq!(print(b"hi", true), b"hi\n");
    assert_eq!(print(b"hi\n", true), b"hi\n");

    let types = PasteArgs {
        mime: true,
        ..args
    };
    assert!(matches!(
        pasted(
            &types,
            "text/plain".to_owned(),
            vec!["text/html".to_owned()],
            Vec::new(),
            true
        ),
        Pasted::Lines(lines) if lines == vec!["text/plain", "text/html"]
    ));
}

#[test]
fn the_other_commands_ask_for_what_they_say() {
    assert!(matches!(
        list(&ListArgs {
            limit: Some(3),
            plain: false
        }),
        Request::History { limit: Some(3) }
    ));
    assert!(matches!(
        pick(PickArgs {
            entry: "a".to_owned()
        }),
        Request::Pick { entry } if entry == "a"
    ));
    assert!(matches!(
        rm(RmArgs {
            entry: "a".to_owned()
        }),
        Request::Forget { entry } if entry == "a"
    ));
    let all = ClearArgs { history: true };
    assert!(matches!(clear(&all), Request::Clear { history: true }));
    assert_eq!(
        bare(&cleared(&all)),
        "Cleared the clipboard and history everywhere"
    );
    assert_eq!(
        bare(&cleared(&ClearArgs { history: false })),
        "Cleared the clipboard everywhere"
    );
    assert_eq!(copied("a-1"), format!("{GREEN}Copied as a-1{OFF}"));
    assert_eq!(bare(&removed("a-1")), "Removed a-1 everywhere");
    assert!(matches!(
        get(GetArgs { entry: None }),
        Request::Files { entry: None }
    ));
}

#[test]
fn files_that_have_not_arrived_are_a_situation() {
    assert!(matches!(
        got("a-1".to_owned(), Some("/spool/x".to_owned())),
        Ok(tree) if tree == "/spool/x"
    ));
    let pending = got("a-1".to_owned(), None).unwrap_err();
    assert_eq!(
        pending.text(),
        "The files of a-1 have not arrived; the daemon is still trying."
    );
    assert_eq!(pending.exit_code(), 75);
    let (line, code) = report_error(Some(&Situation::DaemonNotRunning), "ignored");
    assert_eq!(
        line,
        format!(
            "{RED}The yank daemon is not running. Start it with `yank service start`.{OFF}"
        )
    );
    assert_eq!(code, 69);
    assert_eq!(
        report_error(None, "it broke"),
        (format!("{RED}Error: it broke{OFF}"), 1)
    );
    assert_eq!(
        unexpected("Cleared"),
        "unexpected answer from the daemon: Cleared"
    );
}

#[test]
fn a_mangled_ticket_never_reaches_the_daemon() {
    let add = |ticket: Option<&str>, name: Option<&str>| peer::PeerArgs {
        command: peer::PeerCommand::Add {
            ticket: ticket.map(str::to_owned),
            name: name.map(str::to_owned),
        },
    };
    assert!(peer::request(add(Some("mangled"), None), "host".to_owned()).is_err());
    assert!(matches!(
        peer::request(add(None, None), "host".to_owned()),
        Ok(Request::PairHost { name }) if name == "host"
    ));
    assert!(matches!(
        peer::request(add(None, Some("desk")), "host".to_owned()),
        Ok(Request::PairHost { name }) if name == "desk"
    ));
    let remove = peer::PeerArgs {
        command: peer::PeerCommand::Rm {
            peer: "desk".to_owned(),
        },
    };
    assert!(matches!(
        peer::request(remove, String::new()),
        Ok(Request::RemovePeer { peer }) if peer == "desk"
    ));
    assert_eq!(
        bare(&peer::hosted("yank-pair-x")[4]),
        "It will see everything you copy. The ticket works once, and expires in 3 minutes."
    );
    assert_eq!(bare(&peer::hosted("x")[2]), "    yank peer add x");
    assert_eq!(bare(&peer::paired("desk")), "Paired with `desk`");
    assert_eq!(bare(&peer::removed("abc")[0]), "Removed abc");
}

#[test]
fn a_refusal_of_the_daemon_is_a_failure() {
    assert!(matches!(
        settle(Heard::Answer(Response::Cleared)),
        Ok(Response::Cleared)
    ));
    assert_eq!(
        settle(Heard::Answer(Response::Error("no".to_owned()))).unwrap_err(),
        "no"
    );
    assert_eq!(
        settle(Heard::Nothing).unwrap_err(),
        "the daemon did not answer"
    );
    assert_eq!(
        settle(Heard::Unreadable("garbled".to_owned())).unwrap_err(),
        "garbled"
    );
}
