//! Which types of a selection are carried, and under which names.

use yank::clip::codec::DecodeError;
use yank::clip::event;
use yank::clip::event::{Event, Rep, Selection};
use yank::clip::mime::{aliases, is_local, is_text, select, MARKER, MAX_REPS};

fn offered(mimes: &[&str]) -> Vec<String> {
    mimes.iter().map(|mime| (*mime).to_owned()).collect()
}

fn select_all(offered: &[String]) -> Vec<&str> {
    select(offered, &[])
}

#[test]
fn text_wins_over_the_rest() {
    let mimes = offered(&["image/png", "text/plain", "text/plain;charset=utf-8"]);
    assert_eq!(select_all(&mimes)[0], "text/plain;charset=utf-8");
}

#[test]
fn chatter_is_never_content() {
    assert!(select_all(&offered(&["TARGETS", "TIMESTAMP"])).is_empty());
    assert_eq!(
        select_all(&offered(&["TARGETS", "image/png"])),
        vec!["image/png"],
    );
}

#[test]
fn our_own_marker_is_not_content_either() {
    assert!(select_all(&offered(&[MARKER])).is_empty());
}

/// What a browser offers: the same selection formatted and plain. Both are
/// carried, and the plain one is not carried five times over.
#[test]
fn every_representation_is_taken_once() {
    let mimes = offered(&[
        "text/html",
        "text/plain;charset=utf-8",
        "text/plain",
        "UTF8_STRING",
        "STRING",
    ]);

    assert_eq!(
        select_all(&mimes),
        vec!["text/plain;charset=utf-8", "text/html"],
    );
}

/// An image, with the text an application offers beside it. Text is what the
/// entry is named by, as always, and the image is carried with it rather than
/// instead of it.
#[test]
fn an_image_is_carried_beside_the_text() {
    let mimes = offered(&["image/png", "image/bmp", "text/plain"]);

    assert_eq!(
        select_all(&mimes),
        vec!["text/plain", "image/png", "image/bmp"],
    );
}

#[test]
fn a_selection_costs_a_bounded_number_of_transfers() {
    let many: Vec<String> = (0..64)
        .map(|index| format!("application/x-{index}"))
        .collect();

    assert_eq!(select_all(&many).len(), MAX_REPS);
}

#[test]
fn an_ignored_type_is_dropped_and_an_ignored_first_one_drops_the_selection() {
    let mimes = offered(&["text/plain", "text/html", "image/png"]);

    assert_eq!(
        select(&mimes, &["text/html".to_owned()]),
        vec!["text/plain", "image/png"],
    );
    assert!(select(&mimes, &["text/plain".to_owned()]).is_empty());
}

#[test]
fn text_is_offered_under_every_name() {
    let text = aliases("text/plain;charset=utf-8");
    assert_eq!(text[0], "text/plain;charset=utf-8");
    assert!(text.contains(&"UTF8_STRING".to_owned()));
    assert_eq!(text.len(), 5);

    assert_eq!(aliases("image/png"), vec!["image/png".to_owned()]);
    assert_eq!(aliases("text/uri-list"), vec!["text/uri-list".to_owned()]);
}

#[test]
fn a_file_reference_is_local_and_its_contents_are_not() {
    assert!(is_local("text/uri-list"));
    assert!(is_local("x-special/gnome-copied-files"));
    assert!(!is_local("text/plain"));
    assert!(!is_local("image/png"));
}

#[test]
fn structured_text_is_text_too() {
    assert!(is_text("text/html"));
    assert!(is_text("application/json"));
    assert!(!is_text("image/png"));
}

#[test]
fn events_round_trip() {
    let event = Event::Copy(event::Copy {
        selection: Selection::new(vec![
            Rep::new("text/plain", b"hello".to_vec()),
            Rep::new("text/html", b"<b>hello</b>".to_vec()),
        ])
        .unwrap(),
        secret: true,
        ttl: Some(90),
        files: Vec::new(),
    });

    let decoded = Event::decode(event.encode().as_slice()).unwrap();
    let Event::Copy(copy) = decoded else {
        panic!("expected a copy");
    };
    assert_eq!(copy.selection.mime(), "text/plain");
    assert_eq!(
        copy.selection.rep("TEXT/HTML").unwrap().bytes,
        b"<b>hello</b>",
    );
    assert_eq!(copy.selection.size(), 17);
    assert!(copy.secret);
    assert_eq!(copy.ttl, Some(90));
}

#[test]
fn every_kind_of_event_survives_its_encoding() {
    assert!(matches!(
        Event::decode(Event::Clear.encode().as_slice()),
        Ok(Event::Clear)
    ));
}

/// "A selection carries at least one representation" is a fact rather than a
/// comment, here and on the wire alike, so nothing downstream has to answer
/// for an entry that carries none.
#[test]
fn a_selection_with_no_representation_cannot_be_built() {
    assert!(Selection::new(Vec::new()).is_none());
}

#[test]
fn garbage_is_an_error_not_a_panic() {
    assert!(Event::decode(&[0xff, 0xff, 0xff]).is_err());
}

#[test]
fn what_is_missing_and_what_is_unknown_are_told_apart() {
    let all: Result<Event, DecodeError> = Event::decode(&[]);
    assert!(all.is_err());
    assert!(Event::decode(&[99]).is_err());
}
