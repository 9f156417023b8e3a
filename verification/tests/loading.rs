use pnk2json::loader::{load, recover_app, ArchiveInfo, MessageInfo};
use pnk2json::ctx::{drain_loader_warnings, refine_app};
use pnk2json::model::{AppKind, WarningCode};
use pnk2json::pb::{Field, WireValue};

fn message(type_id: u32, payload: Vec<u8>) -> MessageInfo {
    MessageInfo { type_id, length: payload.len() as u32, payload, patch: vec![] }
}

fn archive(identifier: u64, messages: Vec<MessageInfo>) -> ArchiveInfo {
    ArchiveInfo { identifier, should_merge: false, messages }
}

fn table() -> Vec<(u32, String)> {
    vec![
        (1, "TN.DocumentArchive".to_string()),
        (2, "TN.SheetArchive".to_string()),
        (200, "TSWP.InsertTextCommandArchive".to_string()),
        (201, "TSK.CommandHistory".to_string()),
        (300, "TSWP.StorageArchive".to_string()),
        (1, "shadowed".to_string()),
    ]
}

#[test]
fn objects_are_recorded_and_failures_counted() {
    let archives = vec![
        archive(1, vec![message(1, vec![0x08, 0x05])]),
        archive(2, vec![message(999, vec![0x08, 0x01])]),
        archive(3, vec![message(300, vec![0x08])]),
        archive(4, vec![message(200, vec![0x08, 0x01])]),
        archive(5, vec![message(201, vec![])]),
        archive(6, vec![message(608, vec![]), message(10016, vec![])]),
        archive(7, vec![message(999, vec![0x12])]),
    ];
    let loaded = load(&archives, &table());
    assert_eq!(loaded.records.len(), 4);
    let root = loaded.record(1).unwrap();
    assert_eq!(root.id, 1);
    assert_eq!(root.type_id, 1);
    assert_eq!(root.name.as_deref(), Some("TN.DocumentArchive"));
    assert_eq!(loaded.msg(1).unwrap().varint(1), Some(5));
    let unknown = loaded.record(2).unwrap();
    assert_eq!(unknown.name, None);
    assert!(unknown.msg.is_some());
    let broken = loaded.record(3).unwrap();
    assert!(broken.msg.is_none());
    assert!(loaded.msg(3).is_none());
    assert!(loaded.record(4).is_none());
    assert!(loaded.record(5).is_none());
    assert!(loaded.record(6).is_none());
    assert!(loaded.record(7).unwrap().msg.is_none());
    assert_eq!(loaded.unknown_ids.get(&999), Some(&2));
    assert_eq!(loaded.unknown_ids.len(), 1);
    assert_eq!(loaded.undecodable_ids.get(&300), Some(&1));
    assert_eq!(loaded.undecodable_ids.get(&999), Some(&1));
    assert_eq!(loaded.undecodable_bytes.get(&3), Some(&1));
    assert_eq!(loaded.undecodable_bytes.get(&7), Some(&1));
    assert_eq!((loaded.patches_applied, loaded.patches_dropped), (0, 0));
}

#[test]
fn a_segment_keeps_its_best_payload() {
    // First payload fails, the second walks: the second wins.
    let a = archive(10, vec![message(300, vec![0x08]), message(999, vec![0x08, 0x02])]);
    // Both walk; only the second is named: the named one wins.
    let b = archive(11, vec![message(999, vec![0x08, 0x03]), message(2, vec![0x08, 0x04])]);
    // Both walk and both are named: the first stays.
    let c = archive(12, vec![message(2, vec![0x08, 0x05]), message(300, vec![0x08, 0x06])]);
    let loaded = load(&[a, b, c], &table());
    assert_eq!(loaded.record(10).unwrap().type_id, 999);
    assert_eq!(loaded.msg(10).unwrap().varint(1), Some(2));
    assert_eq!(loaded.record(11).unwrap().type_id, 2);
    assert_eq!(loaded.msg(11).unwrap().varint(1), Some(4));
    assert_eq!(loaded.record(12).unwrap().type_id, 2);
    assert_eq!(loaded.msg(12).unwrap().varint(1), Some(5));
}

#[test]
fn patched_segments_record_the_merged_payload() {
    let base = message(2, vec![0x08, 0x05, 0x10, 0x01]);
    let patch = MessageInfo {
        type_id: 0,
        length: 2,
        payload: vec![0x08, 0x09],
        patch: vec![Field { number: 7, value: WireValue::Varint(0) }],
    };
    let bad_patch = MessageInfo {
        type_id: 0,
        length: 0,
        payload: vec![],
        patch: vec![Field { number: 7, value: WireValue::Varint(5) }],
    };
    let a = ArchiveInfo { identifier: 20, should_merge: true, messages: vec![base, patch, bad_patch] };
    let loaded = load(&[a], &table());
    assert_eq!(loaded.records.len(), 1);
    let m = loaded.msg(20).unwrap();
    assert_eq!(m.varint(1), Some(9));
    assert_eq!(m.varint(2), Some(1));
    assert_eq!((loaded.patches_applied, loaded.patches_dropped), (1, 1));
}

#[test]
fn the_application_comes_from_the_first_prefixed_name() {
    let names = vec![
        (5, "TSP.PackageMetadata".to_string()),
        (7, "TP.DocumentArchive".to_string()),
        (8, "KN.ShowArchive".to_string()),
    ];
    let archives = vec![
        archive(1, vec![message(5, vec![]), message(4, vec![])]),
        archive(2, vec![message(8, vec![]), message(7, vec![])]),
    ];
    assert_eq!(recover_app(&archives, &names), Some(AppKind::Keynote));
    assert_eq!(recover_app(&archives[..1], &names), None);
    assert_eq!(recover_app(&[], &names), None);
    let numbers = vec![(3, "TN.SheetArchive".to_string())];
    assert_eq!(recover_app(&[archive(1, vec![message(3, vec![])])], &numbers), Some(AppKind::Numbers));
}

#[test]
fn loader_findings_become_warnings() {
    let archives = vec![
        archive(1, vec![message(999, vec![0x08, 0x01])]),
        archive(2, vec![message(300, vec![0x08])]),
        archive(3, vec![message(31, vec![0x08, 0x01])]),
        archive(4, vec![message(999, vec![0x08, 0x02])]),
        archive(5, vec![message(4096, vec![0x12])]),
    ];
    let mut loaded = load(&archives, &table());
    loaded.patches_dropped = 2;
    let mut warnings = Vec::new();
    drain_loader_warnings(&loaded, &table(), &mut warnings);
    let messages: Vec<&str> = warnings.iter().map(|w| w.message.as_str()).collect();
    assert_eq!(
        messages,
        vec![
            "1 object(s) with type id 31 (0x1f) have no trusted registry entry; payloads skipped",
            "2 object(s) with type id 999 (0x3e7) have no trusted registry entry; payloads skipped",
            "1 object(s) with type id 4096 (0x1000) have no trusted registry entry; payloads skipped",
            "2 incremental-save patch(es) could not be applied; affected objects may show pre-edit content",
            "1 object(s) of type TSWP.StorageArchive failed to decode structurally; payloads skipped by declared length",
            "1 object(s) of type unknown:0x1000 failed to decode structurally; payloads skipped by declared length",
        ]
    );
    assert_eq!(warnings[0].code, WarningCode::UnknownObjectType);
    assert_eq!(warnings[0].detail.as_deref(), Some("0x1f"));
    assert_eq!(warnings[3].code, WarningCode::UnsupportedFeature);
    assert_eq!(warnings[3].detail.as_deref(), Some("incremental-save"));
    assert_eq!(warnings[4].code, WarningCode::UndecodableObject);
    assert_eq!(warnings[4].detail.as_deref(), Some("TSWP.StorageArchive"));
    assert_eq!(warnings[5].detail.as_deref(), Some("unknown:0x1000"));
    assert!(warnings.iter().all(|w| w.path.is_none() && w.count.is_none() && w.paths.is_none()));
}

#[test]
fn a_clean_load_warns_of_nothing() {
    let loaded = load(&[archive(1, vec![message(1, vec![])])], &table());
    let mut warnings = Vec::new();
    drain_loader_warnings(&loaded, &table(), &mut warnings);
    assert!(warnings.is_empty());
}

#[test]
fn the_root_object_decides_the_application() {
    let unambiguous = vec![(2, "TN.SheetArchive".to_string()), (7, "KN.SlideArchive".to_string())];
    // The Pages document archive type.
    let pages = load(&[archive(1, vec![message(10000, vec![])])], &table());
    assert_eq!(refine_app(&pages, &table(), &unambiguous, AppKind::Keynote), AppKind::Pages);
    // A root named as the Numbers document archive.
    let numbers = load(&[archive(1, vec![message(1, vec![])])], &table());
    assert_eq!(refine_app(&numbers, &table(), &unambiguous, AppKind::Pages), AppKind::Numbers);
    // No telling root: the other objects' names decide.
    let evidence = load(&[archive(1, vec![message(300, vec![])]), archive(5, vec![message(7, vec![])])], &table());
    assert_eq!(refine_app(&evidence, &table(), &unambiguous, AppKind::Pages), AppKind::Keynote);
    // Nothing tells: the current kind stays.
    let none = load(&[archive(3, vec![message(300, vec![])])], &table());
    assert_eq!(refine_app(&none, &table(), &unambiguous, AppKind::Numbers), AppKind::Numbers);
}

#[test]
fn gotcha4_unknown_type_ids_become_warnings() {
    // a fresh Pages save whose one unknown object type is 10017 (0x2721)
    let archives = vec![
        archive(1, vec![message(1, vec![0x08, 0x01])]),
        archive(2, vec![message(10017, vec![0x08, 0x01])]),
    ];
    let loaded = load(&archives, &table());
    let mut warnings = Vec::new();
    drain_loader_warnings(&loaded, &table(), &mut warnings);
    let unknown = warnings
        .iter()
        .find(|w| w.code == WarningCode::UnknownObjectType)
        .expect("unknown-object-type warning expected");
    assert!(unknown.detail.as_deref().map(|s| s.starts_with("0x")).unwrap_or(false));
    assert_eq!(unknown.detail.as_deref(), Some("0x2721"));
}
