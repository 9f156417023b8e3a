use pnk2json::model::TextFit;
use pnk2json::pb::Msg;
use pnk2json::shapes::shape_plan;

fn varint(mut v: u64) -> Vec<u8> {
    let mut out = Vec::new();
    while v >= 128 {
        out.push((v as u8 & 0x7f) | 0x80);
        v >>= 7;
    }
    out.push(v as u8);
    out
}

fn len_field(number: u64, body: &[u8]) -> Vec<u8> {
    let mut out = varint((number << 3) | 2);
    out.extend(varint(body.len() as u64));
    out.extend_from_slice(body);
    out
}

fn varint_field(number: u64, v: u64) -> Vec<u8> {
    let mut out = varint(number << 3);
    out.extend(varint(v));
    out
}

/// A shape info with a shape super, the given storage fields, and a text-box flag.
fn info(text_box: bool, owned: Option<u64>, flow: Option<u64>, old: Option<u64>) -> Vec<u8> {
    let mut b = len_field(1, &varint_field(9, 0));
    if let Some(s) = old {
        b.extend(len_field(2, &varint_field(1, s)));
    }
    if let Some(s) = flow {
        b.extend(len_field(3, &len_field(1, &varint_field(1, s))));
    }
    if let Some(s) = owned {
        b.extend(len_field(4, &varint_field(1, s)));
    }
    if text_box {
        b.extend(varint_field(6, 1));
    }
    b
}

#[test]
fn text_boxes_grow_and_read_their_owned_storage_first() {
    let m = Msg::parse(&info(true, Some(4), Some(3), Some(2))).unwrap();
    let p = shape_plan(&m, 3005, &None, None).unwrap();
    assert!(p.textbox);
    assert_eq!(p.storage_id, Some(4));
    assert_eq!(p.placeholder_role, None);
    assert_eq!(p.text_fit, Some(TextFit::Grow));
    // shrink-on-overflow wins
    assert_eq!(shape_plan(&m, 3005, &None, Some(true)).unwrap().text_fit, Some(TextFit::Shrink));
}

#[test]
fn storages_fall_back_to_the_flow_then_the_older_field() {
    let m = Msg::parse(&info(false, None, Some(3), Some(2))).unwrap();
    let p = shape_plan(&m, 3005, &None, None).unwrap();
    assert!(!p.textbox);
    assert_eq!(p.storage_id, Some(3));
    assert_eq!(p.text_fit, None);
    let m = Msg::parse(&info(false, None, None, Some(2))).unwrap();
    assert_eq!(shape_plan(&m, 3005, &None, None).unwrap().storage_id, Some(2));
}

#[test]
fn placeholders_take_their_role_from_the_kind() {
    let mut b = len_field(1, &info(true, Some(8), None, None));
    b.extend(varint_field(2, 2));
    let m = Msg::parse(&b).unwrap();
    let p = shape_plan(&m, 7, &Some("KN.PlaceholderArchive".to_string()), None).unwrap();
    assert!(p.textbox);
    assert_eq!(p.placeholder_role.as_deref(), Some("title"));
    assert_eq!(p.storage_id, Some(8));
    // a placeholder never grows
    assert_eq!(p.text_fit, None);
    let p = shape_plan(&m, 7, &Some("TP.PlaceholderArchive".to_string()), None).unwrap();
    assert_eq!(p.placeholder_role.as_deref(), Some("placeholder"));
}

#[test]
fn a_shape_info_without_a_shape_has_no_plan() {
    let m = Msg::parse(&varint_field(6, 1)).unwrap();
    assert!(shape_plan(&m, 3005, &None, None).is_none());
}
