use std::io::{Cursor, Write};

use pnk2json::container::{iwa_members_from_bytes, member_names};
use pnk2json::members::RejectKind;

/// A ZIP archive holding the given members, stored uncompressed.
fn zip_of(members: &[(&str, &[u8])]) -> Vec<u8> {
    let mut w = zip::ZipWriter::new(Cursor::new(Vec::new()));
    let opts = zip::write::SimpleFileOptions::default().compression_method(zip::CompressionMethod::Stored);
    for (name, bytes) in members {
        w.start_file(*name, opts).unwrap();
        w.write_all(bytes).unwrap();
    }
    w.finish().unwrap().into_inner()
}

#[test]
fn object_streams_are_collected_and_operation_logs_skipped() {
    let doc = zip_of(&[
        ("Index/Document.iwa", b"\x00\x01\x02"),
        ("Index/OperationStorage.iwa", b"bvx2rest"),
        ("Metadata/Properties.plist", b"bplist00"),
        ("Index/Tables/Tile.iwa", b"\x07"),
    ]);
    assert_eq!(
        member_names(&doc).ok().unwrap(),
        vec!["Index/Document.iwa", "Index/OperationStorage.iwa", "Metadata/Properties.plist", "Index/Tables/Tile.iwa"]
    );
    let members = iwa_members_from_bytes(&doc).ok().unwrap();
    assert_eq!(
        members,
        vec![
            ("Index/Document.iwa".to_string(), vec![0u8, 1, 2]),
            ("Index/Tables/Tile.iwa".to_string(), vec![7u8]),
        ]
    );
}

#[test]
fn a_nested_index_archive_is_read_when_the_top_level_has_none() {
    let inner = zip_of(&[("Index/Document.iwa", b"\x09")]);
    let doc = zip_of(&[("Data/a.png", b"png"), ("Index.zip", &inner)]);
    let members = iwa_members_from_bytes(&doc).ok().unwrap();
    assert_eq!(members, vec![("Index/Document.iwa".to_string(), vec![9u8])]);
}

#[test]
fn containers_are_refused_by_kind() {
    let e = iwa_members_from_bytes(b"not a zip").err().unwrap();
    assert_eq!(e.kind, RejectKind::Unsupported);
    assert!(e.message.starts_with("document: not a readable ZIP container: "));

    let e = iwa_members_from_bytes(&zip_of(&[("Index/Document.iwa", b"x"), (".iwph", b"")])).err().unwrap();
    assert_eq!(e.kind, RejectKind::Encrypted);
    assert!(e.message.contains("encrypted"));

    let e = iwa_members_from_bytes(&zip_of(&[("pkg/index.xml.gz", b"")])).err().unwrap();
    assert_eq!(e.kind, RejectKind::Legacy);
    assert!(e.message.contains("legacy"));

    let e = iwa_members_from_bytes(&zip_of(&[("Data/a.png", b"png")])).err().unwrap();
    assert_eq!(e.kind, RejectKind::Unsupported);
    assert_eq!(e.message, "document: no iWork '13+ data found (missing Index.zip / *.iwa members)");
}
