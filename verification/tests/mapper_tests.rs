use mongosync::mapper::{MappingError, OpKind, RawEvent, RawNamespace};
use mongosync::message::{Doc, Event, FieldValue};

fn bv(s: &str) -> Vec<u8> {
    s.as_bytes().to_vec()
}

fn key_doc() -> Doc {
    Doc { fields: vec![(bv("_id"), FieldValue::Num(bv("1")))] }
}

fn body_doc() -> Doc {
    Doc {
        fields: vec![
            (bv("_id"), FieldValue::Num(bv("1"))),
            (bv("qty"), FieldValue::Num(bv("2"))),
        ],
    }
}

fn ns() -> Option<RawNamespace> {
    Some(RawNamespace { db: bv("shop"), coll: Some(bv("orders")) })
}

#[test]
fn insert_maps_to_insert_message() {
    let ev = RawEvent { op: OpKind::Insert, ns: ns(), key: key_doc(), full_doc: Some(body_doc()) };
    let m = mongosync::mapper::map(ev).unwrap().unwrap();
    assert!(matches!(m.event, Event::Insert));
    assert_eq!(m.db, bv("shop"));
    assert_eq!(m.coll, bv("orders"));
    assert!(m.data.is_some());
}

#[test]
fn update_maps_to_update_message() {
    let ev = RawEvent { op: OpKind::Update, ns: ns(), key: key_doc(), full_doc: Some(body_doc()) };
    let m = mongosync::mapper::map(ev).unwrap().unwrap();
    assert!(matches!(m.event, Event::Update));
    assert!(m.data.is_some());
}

#[test]
fn delete_maps_to_delete_without_post_image() {
    let ev = RawEvent { op: OpKind::Delete, ns: ns(), key: key_doc(), full_doc: Some(body_doc()) };
    let m = mongosync::mapper::map(ev).unwrap().unwrap();
    assert!(matches!(m.event, Event::Delete));
    assert!(m.data.is_none());
}

#[test]
fn administrative_event_is_dropped_not_an_error() {
    let ev = RawEvent { op: OpKind::Other, ns: None, key: key_doc(), full_doc: None };
    assert!(mongosync::mapper::map(ev).unwrap().is_none());
}

#[test]
fn missing_namespace_is_a_mapping_error() {
    let ev = RawEvent { op: OpKind::Insert, ns: None, key: key_doc(), full_doc: Some(body_doc()) };
    assert_eq!(mongosync::mapper::map(ev).unwrap_err(), MappingError::MissingNamespace);
}

#[test]
fn missing_collection_is_a_mapping_error() {
    let ev = RawEvent {
        op: OpKind::Delete,
        ns: Some(RawNamespace { db: bv("shop"), coll: None }),
        key: key_doc(),
        full_doc: None,
    };
    assert_eq!(mongosync::mapper::map(ev).unwrap_err(), MappingError::MissingCollection);
}
