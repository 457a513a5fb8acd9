//! How the program names its version.

use yank::format_version;

#[test]
fn unversioned_builds_omit_the_source_revision() {
    assert_eq!(format_version("0.1.0", None), "0.1.0");
}

#[test]
fn packaged_builds_include_the_source_revision() {
    assert_eq!(format_version("0.1.0", Some("abc123")), "0.1.0-abc123");
}
