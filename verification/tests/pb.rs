use pnk2json::pb::{Field, Msg, WireValue};

fn field(number: u32, value: WireValue) -> Field {
    Field { number, value }
}

fn sample() -> Msg {
    Msg {
        fields: vec![
            field(1, WireValue::Varint(5)),
            field(2, WireValue::Bytes(b"abc".to_vec())),
            field(1, WireValue::Varint(0)),
            field(3, WireValue::Fixed32([0, 0, 128, 63])),
            field(4, WireValue::Bytes(vec![b'a', 0xff])),
            field(5, WireValue::Varint(u64::MAX)),
        ],
    }
}

#[test]
fn last_occurrence_wins() {
    let m = sample();
    assert_eq!(m.varint(1), Some(0));
    assert_eq!(m.boolean(1), Some(false));
    assert_eq!(m.int64(5), Some(-1));
    assert!(m.has(3));
    assert!(!m.has(9));
    assert_eq!(m.all(1).len(), 2);
    assert!(matches!(m.all(1)[0], WireValue::Varint(5)));
}

#[test]
fn wrong_wire_types_read_as_absent() {
    let m = sample();
    assert_eq!(m.varint(2), None);
    assert_eq!(m.bytes(1), None);
    assert_eq!(m.string(3), None);
    assert_eq!(m.bytes(2), Some(&b"abc"[..]));
    assert_eq!(m.string(2), Some("abc".to_string()));
    assert_eq!(m.string(4), Some("a\u{fffd}".to_string()));
    assert!(m.get(7).is_none());
}
