//! The selection of a Wayland seat.

use yank::clip::event::{Rep, Selection};
use yank::clip::mime::{MARKER, SECRET_HINT};
use yank::clip::offer::serves;
use yank::clip::wayland::{DeviceEvent, Policy, Reading, Seat};

fn seat() -> Seat {
    Seat::new(Policy {
        max_bytes: 16,
        ignore: vec!["image/png".to_owned()],
    })
}

fn announce(seat: &mut Seat, offer: u64, types: &[&str]) {
    seat.on_device(DeviceEvent::NewOffer(offer));
    for mime in types {
        seat.on_offer_mime(offer, (*mime).to_owned());
    }
}

fn select(seat: &mut Seat, offer: u64) -> Vec<u64> {
    let outcome = seat.on_device(DeviceEvent::Selection(Some(offer)));
    assert!(!outcome.emptied);
    outcome.released
}

#[test]
fn a_selection_is_read_in_the_types_it_is_worth() {
    let mut seat = seat();
    announce(
        &mut seat,
        1,
        &["TARGETS", "text/html", "text/plain", "image/png"],
    );
    assert!(select(&mut seat, 1).is_empty());
    let pending = seat.take_pending().unwrap();
    assert_eq!(pending.offer, 1);
    assert_eq!(pending.types, vec!["text/plain", "text/html"]);
    assert!(!pending.secret);
    assert!(seat.take_pending().is_none());
}

#[test]
fn a_password_is_read_as_a_secret() {
    let mut seat = seat();
    announce(&mut seat, 1, &["text/plain", SECRET_HINT]);
    select(&mut seat, 1);
    assert!(seat.take_pending().unwrap().secret);
}

#[test]
fn our_own_selection_is_never_copied_back() {
    let mut seat = seat();
    let list = serves(&Selection::of(Rep::new("text/plain", b"hi".to_vec())));
    let (types, replaced) = seat.offer(9, list);
    assert_eq!(replaced, None);
    assert_eq!(types.last().unwrap(), MARKER);

    let types: Vec<&str> = types.iter().map(String::as_str).collect();
    announce(&mut seat, 1, &types);
    select(&mut seat, 1);
    assert!(seat.take_pending().is_none());
}

#[test]
fn what_we_hold_is_served_under_every_name() {
    let mut seat = seat();
    let list = serves(&Selection::of(Rep::new("text/plain", b"hi".to_vec())));
    seat.offer(9, list);
    assert_eq!(seat.serve(9, "UTF8_STRING").unwrap().as_slice(), b"hi");
    assert!(seat.serve(9, "image/png").is_none());
    assert!(seat.serve(8, "text/plain").is_none());
    let list = serves(&Selection::of(Rep::new("text/plain", b"ho".to_vec())));
    assert_eq!(seat.offer(10, list).1, Some(9));
    assert!(!seat.cancelled(9));
    assert!(seat.cancelled(10));
    assert!(seat.serve(10, "text/plain").is_none());
    assert_eq!(seat.clear(), None);
}

#[test]
fn superseded_offers_are_released() {
    let mut seat = seat();
    announce(&mut seat, 1, &["text/plain"]);
    announce(&mut seat, 2, &["text/plain"]);
    assert_eq!(select(&mut seat, 2), vec![1]);
    announce(&mut seat, 3, &["text/plain"]);
    assert_eq!(select(&mut seat, 3), vec![2]);
    let outcome = seat.on_device(DeviceEvent::Selection(None));
    assert!(outcome.emptied);
    assert_eq!(outcome.released, vec![3]);
    assert!(seat.is_alive());
    seat.on_device(DeviceEvent::Finished);
    assert!(!seat.is_alive());
}

fn reading(types: &[&str]) -> Reading {
    let mut seat = seat();
    announce(&mut seat, 1, types);
    select(&mut seat, 1);
    Reading::begin(seat.take_pending().unwrap(), seat.max_bytes())
}

#[test]
fn a_capture_is_bounded() {
    let mut read = reading(&["text/plain", "text/html", "application/json"]);
    assert_eq!(read.next(), Some(("text/plain", 16)));
    read.read(Some(vec![b'x'; 10]));
    assert_eq!(read.next(), Some(("text/html", 6)));
    read.read(Some(vec![b'y'; 7]));
    assert_eq!(read.next(), Some(("application/json", 6)));
    read.read(Some(vec![b'z'; 6]));
    assert!(read.next().is_none());
    let captured = read.finish().unwrap();
    assert_eq!(captured.selection.mime(), "text/plain");
    assert!(captured.selection.rep("text/html").is_none());
    assert_eq!(captured.selection.size(), 16);
}

#[test]
fn a_selection_without_what_names_it_is_given_up_on() {
    for first in [None, Some(Vec::new()), Some(vec![b'x'; 17])] {
        let mut read = reading(&["text/plain", "text/html"]);
        read.read(first);
        assert!(read.next().is_none());
        assert!(read.finish().is_none());
    }
}
