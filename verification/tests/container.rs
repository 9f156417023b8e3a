use pnk2json::members::{
    base_name_exec, check_members, is_iwa_name, is_operation_log, nested_index, no_iwork_data, RejectKind,
};

fn names(list: &[&str]) -> Vec<String> {
    list.iter().map(|s| s.to_string()).collect()
}

#[test]
fn base_names_follow_the_last_slash() {
    assert_eq!(base_name_exec("Index/Document.iwa"), "Document.iwa");
    assert_eq!(base_name_exec("a/b/c"), "c");
    assert_eq!(base_name_exec("plain"), "plain");
    assert_eq!(base_name_exec("dir/"), "");
    assert_eq!(base_name_exec(""), "");
}

#[test]
fn current_documents_pass() {
    assert!(check_members(&names(&["Index/Document.iwa", "Metadata/Properties.plist", "Data/x.png"])).is_ok());
    assert!(check_members(&[]).is_ok());
}

#[test]
fn encrypted_documents_are_refused() {
    let e = check_members(&names(&["Index/Document.iwa", "sub/.iwph", ".iwpv2"])).unwrap_err();
    assert_eq!(e.kind, RejectKind::Encrypted);
    assert_eq!(
        e.message,
        "document: encrypted iWork document (member `.iwph`) \u{2014} password-protected files are not supported"
    );
}

#[test]
fn legacy_documents_are_refused() {
    let e = check_members(&names(&["Contents/PkgInfo", "pkg/Index.XML.gz"])).unwrap_err();
    assert_eq!(e.kind, RejectKind::Legacy);
    assert_eq!(
        e.message,
        "document: legacy iWork document (bundle marker `index.xml.gz`) \u{2014} re-save with a current version of Pages, Numbers, or Keynote"
    );
    // An encrypted marker wins over a legacy one, wherever it stands.
    let e = check_members(&names(&["index.db", "x/.iwph"])).unwrap_err();
    assert_eq!(e.kind, RejectKind::Encrypted);
    assert!(check_members(&names(&["index.xml.bak", "old/index.apxl/"])).is_ok());
}

#[test]
fn object_streams_and_nested_archives() {
    assert!(is_iwa_name("Index/Document.iwa"));
    assert!(is_iwa_name("Index/Tables/Tile.IWA"));
    assert!(!is_iwa_name("Index/"));
    assert!(!is_iwa_name("Index/Document.iwa.bak"));
    assert_eq!(nested_index(&names(&["Data/a.png", "Index.zip/", "pkg/Index.zip"])), Some(2));
    assert_eq!(nested_index(&names(&["Data/a.png"])), None);
    assert!(is_operation_log(b"bvx2...."));
    assert!(!is_operation_log(b"bv"));
    assert!(!is_operation_log(&[0x00, 0x62, 0x76, 0x78]));
    let e = no_iwork_data();
    assert_eq!(e.kind, RejectKind::Unsupported);
    assert_eq!(e.message, "document: no iWork '13+ data found (missing Index.zip / *.iwa members)");
}
