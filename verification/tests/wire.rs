use pnk2json::pb::{Field, Msg, WireValue};
use pnk2json::wire::{packed_u64s, parse_fields, read_varint};

fn varint_of(v: &WireValue) -> Option<u64> {
    match v {
        WireValue::Varint(x) => Some(*x),
        _ => None,
    }
}

fn bytes_of(v: &WireValue) -> Option<Vec<u8>> {
    match v {
        WireValue::Bytes(b) => Some(b.clone()),
        _ => None,
    }
}

#[test]
fn varints_read_base_128() {
    assert_eq!(read_varint(&[0x96, 0x01], 0), Some((150, 2)));
    assert_eq!(read_varint(&[0x00, 0x7f], 1), Some((127, 2)));
    assert_eq!(read_varint(&[0x80], 0), None);
    assert_eq!(read_varint(&[], 0), None);
    let max = [0xff, 0xff, 0xff, 0xff, 0xff, 0xff, 0xff, 0xff, 0xff, 0x01];
    assert_eq!(read_varint(&max, 0), Some((u64::MAX, 10)));
    let too_big = [0xff, 0xff, 0xff, 0xff, 0xff, 0xff, 0xff, 0xff, 0xff, 0x02];
    assert_eq!(read_varint(&too_big, 0), None);
    let too_long = [0x80, 0x80, 0x80, 0x80, 0x80, 0x80, 0x80, 0x80, 0x80, 0x80, 0x00];
    assert_eq!(read_varint(&too_long, 0), None);
}

#[test]
fn every_wire_type_walks() {
    let bytes = [
        0x08, 0x96, 0x01, // 1: varint 150
        0x12, 0x03, b'a', b'b', b'c', // 2: bytes
        0x1d, 1, 2, 3, 4, // 3: fixed32
        0x21, 1, 2, 3, 4, 5, 6, 7, 8, // 4: fixed64
        0x2b, 0x08, 0x07, 0x2c, // 5: group { 1: 7 }
    ];
    let fs = parse_fields(&bytes).unwrap();
    assert_eq!(fs.len(), 5);
    assert_eq!(fs.iter().map(|f| f.number).collect::<Vec<_>>(), vec![1, 2, 3, 4, 5]);
    assert_eq!(varint_of(&fs[0].value), Some(150));
    assert_eq!(bytes_of(&fs[1].value), Some(b"abc".to_vec()));
    assert!(matches!(fs[2].value, WireValue::Fixed32([1, 2, 3, 4])));
    assert!(matches!(fs[3].value, WireValue::Fixed64([1, 2, 3, 4, 5, 6, 7, 8])));
    match &fs[4].value {
        WireValue::Group(inner) => {
            assert_eq!(inner.len(), 1);
            assert_eq!(inner[0].number, 1);
            assert_eq!(varint_of(&inner[0].value), Some(7));
        }
        _ => panic!("group expected"),
    }
}

#[test]
fn malformed_payloads_do_not_walk() {
    assert!(parse_fields(&[]).unwrap().is_empty());
    assert!(parse_fields(&[0x08]).is_none()); // truncated varint
    assert!(parse_fields(&[0x2c]).is_none()); // end-group closing nothing
    assert!(parse_fields(&[0x2b, 0x08, 0x01]).is_none()); // group never closed
    assert!(parse_fields(&[0x2b, 0x34]).is_none()); // wrong group closed
    assert!(parse_fields(&[0x0e, 0x00]).is_none()); // wire type 6
    assert!(parse_fields(&[0x00, 0x01]).is_none()); // field number 0
    assert!(parse_fields(&[0x12, 0x05, b'a']).is_none()); // run past the end
    assert!(parse_fields(&[0x1d, 1, 2]).is_none()); // short fixed32
}

#[test]
fn groups_nest_only_so_deep() {
    let mut ok = Vec::new();
    for _ in 0..64 {
        ok.push(0x0b);
    }
    for _ in 0..64 {
        ok.push(0x0c);
    }
    assert!(parse_fields(&ok).is_some());
    let mut deep = Vec::new();
    for _ in 0..65 {
        deep.push(0x0b);
    }
    for _ in 0..65 {
        deep.push(0x0c);
    }
    assert!(parse_fields(&deep).is_none());
}

#[test]
fn packed_varints_fill_the_run() {
    assert_eq!(packed_u64s(&[0x01, 0x96, 0x01, 0x03]), Some(vec![1, 150, 3]));
    assert_eq!(packed_u64s(&[]), Some(vec![]));
    assert_eq!(packed_u64s(&[0x01, 0x80]), None);
}

fn field(number: u32, value: WireValue) -> Field {
    Field { number, value }
}

#[test]
fn repeated_message_fields_merge() {
    let m = Msg {
        fields: vec![
            field(3, WireValue::Bytes(vec![0x08, 0x01])),
            field(3, WireValue::Bytes(vec![0x10, 0x02])),
            field(3, WireValue::Varint(9)),
            field(4, WireValue::Group(vec![field(1, WireValue::Varint(5))])),
            field(6, WireValue::Bytes(vec![0x08])),
        ],
    };
    let merged = m.msg(3).unwrap();
    assert_eq!(merged.varint(1), Some(1));
    assert_eq!(merged.varint(2), Some(2));
    assert_eq!(merged.fields.len(), 2);
    assert_eq!(m.msg(4).unwrap().varint(1), Some(5));
    assert!(m.msg(6).is_none());
    assert!(m.msg(7).is_none());
    let each = m.msgs(3);
    assert_eq!(each.len(), 2);
    assert_eq!(each[0].varint(1), Some(1));
    assert_eq!(each[1].varint(2), Some(2));
    let parsed = Msg::parse(&[0x08, 0x2a]).unwrap();
    assert_eq!(parsed.varint(1), Some(42));
    assert!(Msg::parse(&[0x08]).is_none());
}

#[test]
fn references_unwrap_wrappers() {
    assert_eq!(Msg::deep_reference(&WireValue::Varint(5)), Some(5));
    assert_eq!(Msg::deep_reference(&WireValue::Bytes(vec![0x08, 0x2a])), Some(42));
    // { 1: { 1: 7 } }
    assert_eq!(Msg::deep_reference(&WireValue::Bytes(vec![0x0a, 0x02, 0x08, 0x07])), Some(7));
    assert_eq!(Msg::deep_reference(&WireValue::Fixed32([0, 0, 0, 0])), None);
    assert_eq!(Msg::deep_reference(&WireValue::Bytes(vec![0x10, 0x01])), None);
    // Sixteen wrappers unwrap; seventeen are too deep.
    let mut inner = vec![0x08, 0x07];
    for _ in 0..15 {
        let mut w = vec![0x0a, inner.len() as u8];
        w.extend_from_slice(&inner);
        inner = w;
    }
    assert_eq!(Msg::deep_reference(&WireValue::Bytes(inner.clone())), Some(7));
    let mut w = vec![0x0a, inner.len() as u8];
    w.extend_from_slice(&inner);
    assert_eq!(Msg::deep_reference(&WireValue::Bytes(w)), None);

    let m = Msg {
        fields: vec![
            field(2, WireValue::Bytes(vec![0x08, 0x03])),
            field(2, WireValue::Varint(4)),
            field(2, WireValue::Bytes(vec![0x10, 0x01])),
            field(5, WireValue::Bytes(vec![0x01, 0x96, 0x01])),
            field(5, WireValue::Varint(8)),
            field(5, WireValue::Bytes(vec![0x80])),
        ],
    };
    assert_eq!(m.references(2), vec![3, 4]);
    assert_eq!(m.reference(2), None);
    assert_eq!(m.packed_varints(5), vec![1, 150, 8]);
}
