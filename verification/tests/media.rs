use std::collections::{BTreeSet, HashMap};

use pnk2json::media::{package_datas, package_document_id, DataInfoEntry, MediaTable};
use pnk2json::model::{MediaKind, WarningCode};
use pnk2json::pb::Msg;

fn varint(mut v: u64) -> Vec<u8> {
    let mut out = Vec::new();
    while v >= 128 {
        out.push((v as u8 & 0x7f) | 0x80);
        v >>= 7;
    }
    out.push(v as u8);
    out
}

fn len_field(number: u64, body: &[u8]) -> Vec<u8> {
    let mut out = varint((number << 3) | 2);
    out.extend(varint(body.len() as u64));
    out.extend_from_slice(body);
    out
}

fn varint_field(number: u64, v: u64) -> Vec<u8> {
    let mut out = varint(number << 3);
    out.extend(varint(v));
    out
}

fn f32_field(number: u64, v: f32) -> Vec<u8> {
    let mut out = varint((number << 3) | 5);
    out.extend_from_slice(&v.to_le_bytes());
    out
}

fn data_info(id: u64, preferred: Option<&str>, file: Option<&str>, remote: bool, size: Option<(f32, f32)>) -> Vec<u8> {
    let mut d = varint_field(1, id);
    if let Some(p) = preferred {
        d.extend(len_field(3, p.as_bytes()));
    }
    if let Some(f) = file {
        d.extend(len_field(4, f.as_bytes()));
    }
    if remote {
        d.extend(len_field(7, b"https://example.com/x"));
    }
    d.extend(varint_field(18, 42));
    if let Some((w, h)) = size {
        let mut s = f32_field(1, w);
        s.extend(f32_field(2, h));
        let img = len_field(1, &s);
        let attrs = len_field(100, &img);
        d.extend(len_field(10, &attrs));
    }
    d
}

fn entry(file: Option<&str>, preferred: Option<&str>, remote: bool) -> DataInfoEntry {
    DataInfoEntry {
        preferred_file_name: preferred.map(str::to_string),
        file_name: file.map(str::to_string),
        remote_url: if remote { Some("https://example.com/x".to_string()) } else { None },
        materialized_length: Some(7),
        pixel_size: None,
    }
}

#[test]
fn the_package_registry_reads_data_infos() {
    let mut pkg = len_field(2, &len_field(2, b"DOC-1"));
    pkg.extend(len_field(4, &data_info(5, Some("photo.jpg"), Some("photo-5.jpg"), false, Some((640.0, 480.0)))));
    pkg.extend(len_field(4, &data_info(6, None, None, true, None)));
    pkg.extend(len_field(4, &data_info(5, Some("again.png"), None, false, None)));
    let pkg = Msg::parse(&pkg).unwrap();
    assert_eq!(package_document_id(&pkg), Some("DOC-1".to_string()));
    let datas = package_datas(&pkg);
    assert_eq!(datas.len(), 2);
    let five = &datas[&5];
    assert_eq!(five.preferred_file_name.as_deref(), Some("again.png"));
    assert_eq!(five.file_name, None);
    assert_eq!(five.materialized_length, Some(42));
    let six = &datas[&6];
    assert_eq!(six.remote_url.as_deref(), Some("https://example.com/x"));
    assert!(six.pixel_size.is_none());

    let pkg = Msg::parse(&len_field(4, &data_info(9, None, Some("a.png"), false, Some((640.0, 480.0))))).unwrap();
    let datas = package_datas(&pkg);
    let (w, h) = datas[&9].pixel_size.unwrap();
    assert_eq!((f32::from_le_bytes(w), f32::from_le_bytes(h)), (640.0, 480.0));
    assert_eq!(package_document_id(&pkg), None);
}

#[test]
fn references_resolve_or_warn() {
    let mut datas = HashMap::new();
    datas.insert(5u64, entry(Some("photo-5.jpg"), Some("photo.jpg"), false));
    let mut table = MediaTable { datas, referenced: BTreeSet::new() };
    let mut warnings = Vec::new();
    let r = table.media_ref(5, &mut warnings);
    assert_eq!(r.data_id, "5");
    assert_eq!(r.file_name.as_deref(), Some("photo-5.jpg"));
    assert_eq!(r.preferred_file_name.as_deref(), Some("photo.jpg"));
    assert!(warnings.is_empty());
    let missing = table.media_ref(77, &mut warnings);
    assert_eq!(missing.data_id, "77");
    assert!(missing.file_name.is_none());
    assert_eq!(warnings.len(), 1);
    assert_eq!(warnings[0].code, WarningCode::MediaMissing);
    assert_eq!(warnings[0].message, "media data id 77 has no TSP.DataInfo registry entry");
    assert_eq!(warnings[0].detail.as_deref(), Some("77"));
    assert_eq!(table.referenced.iter().copied().collect::<Vec<_>>(), vec![5, 77]);
}

#[test]
fn availability_is_a_name_check() {
    let mut datas = HashMap::new();
    datas.insert(1u64, entry(Some("a.png"), None, false));
    datas.insert(2u64, entry(None, Some("b.png"), false));
    datas.insert(3u64, entry(None, None, true));
    let table = MediaTable { datas, referenced: BTreeSet::new() };
    let members = vec!["Data/a.png".to_string(), "pkg/Data/b.png".to_string()];
    assert!(table.data_available(1, &members));
    assert!(table.data_available(2, &members));
    assert!(!table.data_available(3, &members));
    assert!(!table.data_available(4, &members));
    assert!(!table.data_available(1, &[]));
}

#[test]
fn the_media_list_sorts_by_id_string_and_warns_in_id_order() {
    let mut datas = HashMap::new();
    datas.insert(9u64, entry(Some("nine.png"), None, false));
    datas.insert(10u64, entry(None, Some("ten.mov"), true));
    datas.insert(100u64, entry(Some("hundred.pdf"), Some("Hundred.pdf"), false));
    datas.insert(3u64, entry(None, None, false));
    let referenced: BTreeSet<u64> = [100u64, 10, 9, 3, 4].into_iter().collect();
    let table = MediaTable { datas, referenced };
    let members = vec!["Data/nine.png".to_string()];
    let mut warnings = Vec::new();
    let assets = table.build_media_assets(&members, &mut warnings);
    let ids: Vec<&str> = assets.iter().map(|a| a.data_id.as_str()).collect();
    assert_eq!(ids, vec!["10", "100", "3", "9"]);
    assert_eq!(assets[0].kind, MediaKind::Movie);
    assert_eq!(assets[0].file_name.as_deref(), Some("ten.mov"));
    assert_eq!(assets[1].kind, MediaKind::Pdf);
    assert_eq!(assets[2].kind, MediaKind::Other);
    assert_eq!(assets[2].file_name, None);
    assert_eq!(assets[3].kind, MediaKind::Image);
    assert_eq!(assets[3].byte_length, Some(7));
    let messages: Vec<&str> = warnings.iter().map(|w| w.message.as_str()).collect();
    assert_eq!(
        messages,
        vec![
            "media `ten.mov` (data id 10) is remote-only; this offline viewer cannot fetch it",
            "media bytes for `Hundred.pdf` (data id 100) are not in the container",
        ]
    );
    assert_eq!(warnings[1].detail.as_deref(), Some("hundred.pdf"));
}
