use pnk2json::formulas::{names, uuid_from_string};
use pnk2json::loader::{load, ArchiveInfo, MessageInfo};

fn varint(mut v: u64) -> Vec<u8> {
    let mut out = Vec::new();
    while v >= 128 {
        out.push((v as u8 & 0x7f) | 0x80);
        v >>= 7;
    }
    out.push(v as u8);
    out
}

fn len_field(number: u64, body: &[u8]) -> Vec<u8> {
    let mut out = varint((number << 3) | 2);
    out.extend(varint(body.len() as u64));
    out.extend_from_slice(body);
    out
}

fn varint_field(number: u64, v: u64) -> Vec<u8> {
    let mut out = varint(number << 3);
    out.extend(varint(v));
    out
}

/// A `TSP.UUID` { lower = 1, upper = 2 }.
fn uuid_msg(lower: u64, upper: u64) -> Vec<u8> {
    let mut b = varint_field(1, lower);
    b.extend(varint_field(2, upper));
    b
}

fn object(identifier: u64, type_id: u32, payload: Vec<u8>) -> ArchiveInfo {
    ArchiveInfo {
        identifier,
        should_merge: false,
        messages: vec![MessageInfo { type_id, length: payload.len() as u32, payload, patch: vec![] }],
    }
}

#[test]
fn sheets_name_their_tables_under_every_key() {
    let haunted = (9u128 << 64) | 3;
    let base = (11u128 << 64) | 4;
    // formula owner: { 1: haunted, 3: 35, 12: base }
    let mut owner = len_field(1, &uuid_msg(3, 9));
    owner.extend(varint_field(3, 35));
    owner.extend(len_field(12, &uuid_msg(4, 11)));
    // a second owner of another kind is ignored
    let mut other = len_field(1, &uuid_msg(5, 5));
    other.extend(varint_field(3, 34));
    other.extend(len_field(12, &uuid_msg(6, 6)));
    // sheet { 1: "Sheet 1", 2: ref 30, 2: ref 31 }
    let mut sheet = len_field(1, b"Sheet 1");
    sheet.extend(len_field(2, &varint_field(1, 30)));
    sheet.extend(len_field(2, &varint_field(1, 31)));
    // table info 30 → model 40; drawable 31 is no table
    let info = len_field(2, &varint_field(1, 40));
    let mut model = len_field(1, b"BF6BAE7D-1E29-4444-8CBA-584DF4364C97");
    model.extend(len_field(8, b"Table 1"));
    model.extend(len_field(84, &len_field(1, &uuid_msg(3, 9))));
    let table = vec![(2u32, "TN.SheetArchive".to_string())];
    let loaded = load(
        &[
            object(10, 4008, owner),
            object(12, 4008, other),
            object(20, 2, sheet),
            object(30, 6000, info),
            object(31, 3005, vec![0x08, 0x01]),
            object(40, 6003, model),
        ],
        &table,
    );
    let n = names(&loaded);
    assert_eq!(n.base_uid(haunted), base);
    assert_eq!(n.base_uid(5 | (5u128 << 64)), 5 | (5u128 << 64));
    let id = uuid_from_string("BF6BAE7D-1E29-4444-8CBA-584DF4364C97").unwrap();
    assert_eq!(n.sheet_of(id), Some("Sheet 1"));
    assert_eq!(n.sheet_of(haunted), Some("Sheet 1"));
    assert_eq!(n.sheet_of(base), Some("Sheet 1"));
    assert_eq!(n.sheet_of(12345), None);
}

#[test]
fn default_names_map_every_uuid_to_itself() {
    let n = pnk2json::formulas::FormulaNames::default();
    assert_eq!(n.base_uid(0x1234), 0x1234);
    assert_eq!(n.sheet_of(0x1234), None);
}
