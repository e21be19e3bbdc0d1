use mongosync::codec::{parse_message, serialize_message};
use mongosync::message::{Doc, Event, FieldValue, Message};

fn bv(s: &str) -> Vec<u8> {
    s.as_bytes().to_vec()
}

fn sample_insert() -> Message {
    Message {
        event: Event::Insert,
        db: bv("shop"),
        coll: bv("orders"),
        id: Doc { fields: vec![(bv("_id"), FieldValue::Num(bv("1")))] },
        data: Some(Doc {
            fields: vec![
                (bv("_id"), FieldValue::Num(bv("1"))),
                (bv("qty"), FieldValue::Num(bv("2"))),
            ],
        }),
    }
}

#[test]
fn wire_format_matches_expected_line() {
    let wire = serialize_message(&sample_insert());
    let expected = r#"{"event":"Insert","db":"shop","coll":"orders","id":{"_id":1},"data":{"_id":1,"qty":2}}"#;
    assert_eq!(String::from_utf8(wire).unwrap(), expected);
}

#[test]
fn delete_serializes_data_as_null() {
    let m = Message {
        event: Event::Delete,
        db: bv("shop"),
        coll: bv("orders"),
        id: Doc { fields: vec![(bv("_id"), FieldValue::Num(bv("7")))] },
        data: None,
    };
    let wire = serialize_message(&m);
    let expected = r#"{"event":"Delete","db":"shop","coll":"orders","id":{"_id":7},"data":null}"#;
    assert_eq!(String::from_utf8(wire).unwrap(), expected);
}

#[test]
fn round_trip_insert() {
    let m = sample_insert();
    let wire = serialize_message(&m);
    let back = parse_message(&wire).unwrap();
    assert!(back.eq_msg(&m));
}

#[test]
fn round_trip_delete() {
    let m = Message {
        event: Event::Delete,
        db: bv("d"),
        coll: bv("c"),
        id: Doc { fields: vec![(bv("k"), FieldValue::Text(bv("v")))] },
        data: None,
    };
    let wire = serialize_message(&m);
    let back = parse_message(&wire).unwrap();
    assert!(back.eq_msg(&m));
}

#[test]
fn round_trip_every_value_kind() {
    let m = Message {
        event: Event::Update,
        db: bv("db1"),
        coll: bv("c-2"),
        id: Doc { fields: vec![(bv("_id"), FieldValue::Text(bv("abc")))] },
        data: Some(Doc {
            fields: vec![
                (bv("flag"), FieldValue::Bool(true)),
                (bv("off"), FieldValue::Bool(false)),
                (bv("nothing"), FieldValue::Null),
                (bv("n"), FieldValue::Num(bv("-42"))),
                (bv("s"), FieldValue::Text(bv("hello world"))),
            ],
        }),
    };
    let wire = serialize_message(&m);
    let back = parse_message(&wire).unwrap();
    assert!(back.eq_msg(&m));
}

#[test]
fn round_trip_empty_documents() {
    let m = Message {
        event: Event::Insert,
        db: bv("a"),
        coll: bv("b"),
        id: Doc { fields: vec![] },
        data: Some(Doc { fields: vec![] }),
    };
    let wire = serialize_message(&m);
    let back = parse_message(&wire).unwrap();
    assert!(back.eq_msg(&m));
    assert_eq!(
        String::from_utf8(serialize_message(&m)).unwrap(),
        r#"{"event":"Insert","db":"a","coll":"b","id":{},"data":{}}"#
    );
}

#[test]
fn garbage_is_rejected() {
    assert!(parse_message(&bv("")).is_none());
    assert!(parse_message(&bv("{}")).is_none());
    assert!(parse_message(&bv("not json at all")).is_none());
    let mut truncated = serialize_message(&sample_insert());
    truncated.pop();
    assert!(parse_message(&truncated).is_none());
}

#[test]
fn mismatched_event_and_data_is_rejected() {
    // a delete whose data is an object, written by hand
    let line = r#"{"event":"Delete","db":"shop","coll":"orders","id":{"_id":1},"data":{"_id":1}}"#;
    assert!(parse_message(&bv(line)).is_none());
}
