//! Venues and order identifiers.

use bowst::ids::{ClientOrderId, ClientOrderIdGen, VenueId};

#[test]
fn venue_names_round_trip() {
    for venue in VenueId::all() {
        assert_eq!(VenueId::from_name(venue.as_str()), Some(venue));
    }
    assert_eq!(VenueId::from_name("unknown"), None);
}

#[test]
fn encodes_known_value() {
    let id = ClientOrderId::new(0x65f1_a2c0, 1);
    assert_eq!(id.encode().as_str(), "bw65f1a2c000000001");
    assert_eq!(id.session(), 0x65f1_a2c0);
    assert_eq!(id.sequence(), 1);
}

#[test]
fn rejects_foreign_ids() {
    for text in [
        "",
        "bw",
        "web_abc",
        "bw65F1A2C000000001",
        "bw65f1a2c0000000011",
        "xx65f1a2c000000001",
    ] {
        assert_eq!(ClientOrderId::decode(text), None, "input {text:?}");
    }
}

#[test]
fn generator_stops_instead_of_wrapping() {
    let mut ids = ClientOrderIdGen::resume(7, Some(u32::MAX));
    assert_eq!(ids.next(), Some(ClientOrderId::new(7, u32::MAX)));
    assert_eq!(ids.next(), None);
    assert_eq!(ids.next(), None);
}

#[test]
fn every_id_has_a_text_of_the_same_length() {
    let mut ids = ClientOrderIdGen::new(1);
    for _ in 0..10_000 {
        let id = ids.next().unwrap();
        assert_eq!(id.encode().as_str().len(), 18);
    }
}
