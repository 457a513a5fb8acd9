//! The files a person edits, and where everything is kept.

use yank::config::key::KeyError;
use yank::config::schema::{parse_duration, TEMPLATE};
use yank::config::service::CLI;
use yank::config::session::{wayland_socket, NoRuntimeDir};
use yank::config::{BaseDirs, Dirs, MachineKey, RecordError, ServiceState, Settings, SettingsError};
use yank::log::MAX_ENTRY_BYTES;
use yank::time::Span;

fn parse(text: &str) -> Settings {
    Settings::parse(text).unwrap()
}

fn same(a: &Settings, b: &Settings) -> bool {
    format!("{a:?}") == format!("{b:?}")
}

#[test]
fn an_empty_file_yields_the_defaults() {
    assert!(same(&parse(""), &Settings::default()));
}

#[test]
fn units_are_spelled_out() {
    let settings = parse("max-entry-size = \"512 KiB\"\nsecret-ttl = \"2m\"");
    assert_eq!(settings.max_entry_bytes(), 512 * 1024);
    assert_eq!(settings.secret_ttl, Span::from_secs(120));
}

#[test]
fn an_entry_size_over_the_protocol_ceiling_is_clamped() {
    let settings = parse("max-entry-size = \"1 GiB\"");
    assert_eq!(settings.max_entry_bytes(), MAX_ENTRY_BYTES as usize);
}

#[test]
fn the_history_always_keeps_the_current_entry() {
    assert_eq!(parse("history-limit = 0").history_entries(), 1);
    assert_eq!(parse("history-limit = 5").history_entries(), 5);
}

#[test]
fn unknown_keys_are_rejected() {
    assert!(Settings::parse("histroy-limit = 10").is_err());
    assert!(Settings::parse("apply = \"yes\"").is_err());
}

/// The template must parse as-is (everything commented, so all defaults) and
/// must still parse once its keys are uncommented: it cannot drift away from
/// the schema unnoticed.
#[test]
fn the_template_matches_the_schema() {
    assert!(same(&parse(TEMPLATE), &Settings::default()));

    let mut uncommented = String::new();
    for line in TEMPLATE.lines() {
        let key = line
            .strip_prefix('#')
            .filter(|rest| !rest.is_empty() && !rest.starts_with([' ', '#']));
        uncommented.push_str(key.unwrap_or(line));
        uncommented.push('\n');
    }
    assert_ne!(uncommented, TEMPLATE);
    assert!(same(&parse(&uncommented), &Settings::default()));
}

#[test]
fn every_key_sets_what_it_names() {
    let settings = parse(
        "clipboard = false\napply = false\ncapture = false\nhistory-limit = 7\n\
         max-entry-size = 2048\nhistory-budget = \"1 MiB\"\nsecret-ttl = \"1h 30m\"\n\
         ignore-mime = [\"text/html\", \"image/png\"]\nfiles = false\n\
         max-file-size = \"2 KiB\"\nfile-budget = 4096\n",
    );
    assert!(!settings.clipboard && !settings.apply && !settings.capture && !settings.files);
    assert_eq!(settings.history_limit, 7);
    assert_eq!(settings.max_entry_size, 2048);
    assert_eq!(settings.history_budget, 1 << 20);
    assert_eq!(settings.secret_ttl, Span::from_secs(5400));
    assert_eq!(settings.ignore_mime, vec!["text/html", "image/png"]);
    assert!(settings.is_ignored_mime("text/html"));
    assert!(!settings.is_ignored_mime("text/plain"));
    assert_eq!(settings.max_file_size, 2048);
    assert_eq!(settings.file_budget, 4096);
}

#[test]
fn what_is_wrong_with_a_file_is_told_apart() {
    assert_eq!(
        Settings::parse("this is no TOML").unwrap_err(),
        SettingsError::Syntax
    );
    assert_eq!(
        Settings::parse("unheard-of = 1").unwrap_err(),
        SettingsError::UnknownKey
    );
    for text in [
        "history-limit = -1",
        "max-entry-size = -1",
        "max-entry-size = \"a lot\"",
        "secret-ttl = 90",
        "secret-ttl = \"soon\"",
        "ignore-mime = [1]",
        "ignore-mime = \"text/html\"",
        "files = 1",
    ] {
        assert_eq!(
            Settings::parse(text).unwrap_err(),
            SettingsError::WrongValue,
            "{text}"
        );
    }
}

#[test]
fn durations_are_read_the_way_a_person_writes_them() {
    assert_eq!(parse_duration("90s"), Some(Span::from_secs(90)));
    assert_eq!(parse_duration("5m"), Some(Span::from_secs(300)));
    assert_eq!(parse_duration("nope"), None);
    // Spaces do not part the digits of a number, and units do.
    assert_eq!(parse_duration("1 000s"), Some(Span::from_secs(1000)));
    assert_eq!(parse_duration("1h 30m 5s"), Some(Span::from_secs(5405)));
    assert_eq!(parse_duration("1.5h"), Some(Span::from_secs(5400)));
    // A single number may be as large as it likes.
    assert_eq!(
        parse_duration("1000000000000ns"),
        Some(Span::from_secs(1000))
    );
    assert_eq!(
        parse_duration("18446744073709551615s"),
        Some(Span::from_secs(u64::MAX))
    );
    assert_eq!(parse_duration("18446744073709551616s"), None);
    // Several may come to all that a length of time can hold, and no more.
    assert_eq!(
        parse_duration("600000000000ns 1s"),
        Some(Span::from_secs(601))
    );
    assert_eq!(
        parse_duration("18446744073709551615s 999999999ns"),
        Some(Span {
            nanos: u64::MAX as u128 * 1_000_000_000 + 999_999_999
        })
    );
    assert_eq!(parse_duration("18446744073709551615s 1000000000ns"), None);
    assert_eq!(parse_duration("18446744073709551615s 1s"), None);
    assert_eq!(parse_duration("1h 30x"), None);
    assert_eq!(parse_duration("1h foo 30m"), None);
}

fn base() -> BaseDirs {
    BaseDirs {
        config: b"/home/x/.config".to_vec(),
        state: Some(b"/home/x/.local/state".to_vec()),
        data: b"/home/x/.local/share".to_vec(),
        runtime: Some(b"/run/user/1000".to_vec()),
    }
}

fn path(bytes: &[u8]) -> String {
    String::from_utf8(bytes.to_vec()).unwrap()
}

#[test]
fn everything_follows_the_base_directories() {
    let dirs = Dirs::new(None, base());
    assert!(!dirs.is_custom());
    assert_eq!(path(dirs.config_root()), "/home/x/.config/yank");
    assert_eq!(path(dirs.state_root()), "/home/x/.local/state/yank");
    assert_eq!(
        path(&dirs.settings_file()),
        "/home/x/.config/yank/config.toml"
    );
    assert_eq!(
        path(&dirs.service_file()),
        "/home/x/.config/yank/service.toml"
    );
    assert_eq!(
        path(&dirs.identity_file()),
        "/home/x/.local/state/yank/identity.key"
    );
    assert_eq!(
        path(&dirs.mesh_file()),
        "/home/x/.local/state/yank/mesh.json"
    );
    assert_eq!(
        path(&dirs.clip_file()),
        "/home/x/.local/state/yank/clip.json"
    );
    assert_eq!(
        path(&dirs.history_dir()),
        "/home/x/.local/state/yank/history"
    );
    assert_eq!(path(&dirs.files_dir()), "/home/x/.local/state/yank/files");
    assert_eq!(path(&dirs.socket_file()), "/run/user/1000/yank.sock");
}

#[test]
fn an_override_collapses_the_roots() {
    let dirs = Dirs::new(Some(b"/tmp/second".to_vec()), base());
    assert!(dirs.is_custom());
    assert_eq!(path(&dirs.settings_file()), "/tmp/second/config.toml");
    assert_eq!(path(&dirs.mesh_file()), "/tmp/second/mesh.json");
    assert_eq!(path(&dirs.socket_file()), "/tmp/second/yank.sock");
}

#[test]
fn without_state_or_runtime_directories_others_stand_in() {
    let dirs = Dirs::new(
        None,
        BaseDirs {
            state: None,
            runtime: None,
            ..base()
        },
    );
    assert_eq!(path(dirs.state_root()), "/home/x/.local/share/yank");
    assert_eq!(
        path(&dirs.socket_file()),
        "/home/x/.local/share/yank/yank.sock"
    );
}

#[test]
fn keys_round_trip() {
    let key = MachineKey::generate();
    let text = key.encode();
    assert_eq!(text.len(), 44);
    let back = MachineKey::decode(&format!("  {text}\n")).ok().unwrap();
    assert_eq!(back.secret(), key.secret());
    assert_eq!(back.endpoint_id(), key.endpoint_id());
}

#[test]
fn a_key_has_the_public_half_it_always_had() {
    // The first key of the Ed25519 test vectors.
    let secret = [
        0x9d, 0x61, 0xb1, 0x9d, 0xef, 0xfd, 0x5a, 0x60, 0xba, 0x84, 0x4a, 0xf4, 0x92, 0xec, 0x2c,
        0xc4, 0x44, 0x49, 0xc5, 0x69, 0x7b, 0x32, 0x69, 0x19, 0x70, 0x3b, 0xac, 0x03, 0x1c, 0xae,
        0x7f, 0x60,
    ];
    let key = MachineKey::from_bytes(secret);
    assert_eq!(
        key.endpoint_id().text(),
        "d75a980182b10ab7d54bfed3c964073a0ee172f3daa62325af021a68f707511a"
    );
    assert_eq!(
        key.encode(),
        "nWGxne/9WmC6hEr0kuwsxERJxWl7MmkZcDusAxyuf2A="
    );
}

#[test]
fn a_key_that_is_none_is_refused() {
    assert_eq!(
        MachineKey::decode("not base64!").err(),
        Some(KeyError::Undecodable)
    );
    assert_eq!(
        MachineKey::decode("aGVsbG8=").err(),
        Some(KeyError::WrongLength)
    );
}

#[test]
fn a_record_of_the_service_is_read_back() {
    let state = ServiceState::recorded_cli("yank");
    assert!(state.is_ours());
    let back = ServiceState::parse(&state.document()).unwrap();
    assert_eq!(back.installer, CLI);
    assert_eq!(back.label, "yank");

    let other = ServiceState::parse("label = \"yank\"\ninstaller = \"nix\"\n").unwrap();
    assert!(!other.is_ours());
    assert_eq!(
        ServiceState::parse("label = \"yank\"").unwrap_err(),
        RecordError::Incomplete
    );
    assert_eq!(
        ServiceState::parse("installer = 1\nlabel = \"yank\"").unwrap_err(),
        RecordError::Incomplete
    );
    assert_eq!(
        ServiceState::parse("= what").unwrap_err(),
        RecordError::Syntax
    );
}

#[test]
fn the_session_says_where_the_compositor_is() {
    let environment = |display: &str| vec!["HOME=/home/x".to_owned(), display.to_owned()];
    let runtime: Option<&[u8]> = Some(b"/run/user/1000");
    assert_eq!(
        wayland_socket(&environment("WAYLAND_DISPLAY=wayland-1"), runtime),
        Ok(Some(b"/run/user/1000/wayland-1".to_vec()))
    );
    assert_eq!(
        wayland_socket(&environment("WAYLAND_DISPLAY=/tmp/socket"), None),
        Ok(Some(b"/tmp/socket".to_vec()))
    );
    assert_eq!(
        wayland_socket(&environment("WAYLAND_DISPLAY=wayland-1"), None),
        Err(NoRuntimeDir)
    );
    assert_eq!(wayland_socket(&environment("DISPLAY=:0"), runtime), Ok(None));
}
