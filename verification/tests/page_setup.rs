use pnk2json::model::{PageLayoutOrientation, WarningCode};
use pnk2json::pages::{note_vertical_layout, page_orientation};
use pnk2json::pb::Msg;

fn varint(mut v: u64) -> Vec<u8> {
    let mut out = Vec::new();
    while v >= 128 {
        out.push((v as u8 & 0x7f) | 0x80);
        v >>= 7;
    }
    out.push(v as u8);
    out
}

fn varint_field(number: u64, v: u64) -> Vec<u8> {
    let mut out = varint(number << 3);
    out.extend(varint(v));
    out
}

#[test]
fn orientation_is_landscape_for_any_non_zero_value() {
    assert_eq!(page_orientation(&Msg::parse(&varint_field(42, 1)).unwrap()), Some(PageLayoutOrientation::Landscape));
    assert_eq!(page_orientation(&Msg::parse(&varint_field(42, 0)).unwrap()), Some(PageLayoutOrientation::Portrait));
    assert_eq!(page_orientation(&Msg::parse(&varint_field(5, 1)).unwrap()), None);
}

#[test]
fn vertical_layout_is_noted() {
    let mut w = Vec::new();
    note_vertical_layout(&Msg::parse(&varint_field(14, 1)).unwrap(), &mut w);
    assert!(w.is_empty());
    note_vertical_layout(&Msg::parse(&varint_field(39, 1)).unwrap(), &mut w);
    assert_eq!(w.len(), 1);
    assert_eq!(w[0].code, WarningCode::UnsupportedFeature);
    assert_eq!(w[0].message, "document uses vertical text layout (tategaki); rendered horizontally");
}
