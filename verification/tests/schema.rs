use sbd_gen::doc::{Document, ScalarVal};
use sbd_gen::model::{PinLevel, Quirk};
use sbd_gen::schema::sbd_from_doc;

fn s(text: &str) -> Document {
    Document::scalar(ScalarVal::Str(text.to_owned()))
}

fn m(pairs: Vec<(&str, Document)>) -> Document {
    Document::mapping_of(pairs.into_iter().map(|(k, v)| (k.to_owned(), v)).collect())
}

fn l(items: Vec<Document>) -> Document {
    Document::list(items)
}

#[test]
fn test_boards_carry_keys_in_sorted_order() {
    // Keyed-list conversion: names come from the mapping keys, and the order
    // is the mapping's own, lexicographic by key, however the keys arrive.
    let doc = m(vec![(
        "boards",
        m(vec![
            ("zeta", m(vec![("chip", s("c1"))])),
            ("alpha", m(vec![("chip", s("c2"))])),
            ("mid", m(vec![("chip", s("c3"))])),
        ]),
    )]);
    let sbd = sbd_from_doc(&doc).unwrap();
    let boards = sbd.boards.unwrap();
    let names: Vec<&str> = boards.iter().map(|b| b.name.as_str()).collect();
    assert_eq!(names, vec!["alpha", "mid", "zeta"]);
    assert_eq!(boards[0].chip, "c2");
    assert_eq!(boards[1].chip, "c3");
    assert_eq!(boards[2].chip, "c1");
}

#[test]
fn test_missing_chip_is_schema_error() {
    let doc = m(vec![(
        "boards",
        m(vec![("b1", m(vec![("description", s("no chip here"))]))]),
    )]);
    let err = sbd_from_doc(&doc).unwrap_err();
    assert!(err.message.contains("required string"));
}

#[test]
fn test_quirk_level_defaults_high() {
    let doc = m(vec![(
        "boards",
        m(vec![(
            "b1",
            m(vec![
                ("chip", s("c1")),
                (
                    "quirks",
                    l(vec![
                        m(vec![("type", s("set_pin")), ("pin", s("P0_01"))]),
                        m(vec![
                            ("type", s("set_pin")),
                            ("pin", s("P0_02")),
                            ("level", s("low")),
                        ]),
                    ]),
                ),
            ]),
        )]),
    )]);
    let sbd = sbd_from_doc(&doc).unwrap();
    let boards = sbd.boards.unwrap();
    let Quirk::SetPin(ref q0) = boards[0].quirks[0];
    let Quirk::SetPin(ref q1) = boards[0].quirks[1];
    assert_eq!(q0.level, PinLevel::High);
    assert_eq!(q0.pin, "P0_01");
    assert_eq!(q1.level, PinLevel::Low);
}

#[test]
fn test_board_defaults_empty() {
    let doc = m(vec![(
        "boards",
        m(vec![("b1", m(vec![("chip", s("c1"))]))]),
    )]);
    let sbd = sbd_from_doc(&doc).unwrap();
    let boards = sbd.boards.unwrap();
    assert!(boards[0].flags.is_empty());
    assert!(boards[0].quirks.is_empty());
    assert!(boards[0].debugger.is_none());
    assert!(boards[0].leds.is_none());
    assert!(boards[0].buttons.is_none());
    assert!(boards[0].uarts.is_none());
    assert!(sbd.ariel.is_none());
    assert!(sbd.riot.is_none());
}

#[test]
fn test_flags_become_sorted_set() {
    let doc = m(vec![(
        "boards",
        m(vec![(
            "b1",
            m(vec![
                ("chip", s("c1")),
                ("flags", l(vec![s("zzz"), s("aaa"), s("zzz")])),
            ]),
        )]),
    )]);
    let sbd = sbd_from_doc(&doc).unwrap();
    let boards = sbd.boards.unwrap();
    assert_eq!(boards[0].flags, vec!["aaa".to_owned(), "zzz".to_owned()]);
}

#[test]
fn test_leds_keyed_conversion() {
    let doc = m(vec![(
        "boards",
        m(vec![(
            "b1",
            m(vec![
                ("chip", s("c1")),
                (
                    "leds",
                    m(vec![
                        ("led1", m(vec![("pin", s("P0_02"))])),
                        ("led0", m(vec![("pin", s("P0_01"))])),
                    ]),
                ),
            ]),
        )]),
    )]);
    let sbd = sbd_from_doc(&doc).unwrap();
    let boards = sbd.boards.unwrap();
    let leds = boards[0].leds.as_ref().unwrap();
    assert_eq!(leds.len(), 2);
    assert_eq!(leds[0].name, "led0");
    assert_eq!(leds[0].pin, "P0_01");
    assert_eq!(leds[1].name, "led1");
    assert_eq!(leds[1].pin, "P0_02");
}

#[test]
fn test_top_level_must_be_mapping() {
    let err = sbd_from_doc(&s("just a string")).unwrap_err();
    assert!(err.message.contains("mapping"));
}
