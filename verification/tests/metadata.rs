use pnk2json::ctx::{plist_value_as_string, read_build_history, read_document_id, read_properties};
use pnk2json::members::{has_data_file, is_data_member};
use pnk2json::plist_lite::parse;

#[test]
fn properties_file() {
    let src = b"<plist version=\"1.0\"><dict><key>Application</key><string>Pages</string><key>fileFormatVersion</key><array><integer>3</integer><string>14.0</string></array></dict></plist>";
    assert_eq!(
        read_properties(src),
        Ok((Some("Pages".to_string()), Some("14.0".to_string())))
    );
    let src = b"<plist><dict><key>fileFormatVersion</key><integer>-12</integer></dict></plist>";
    assert_eq!(read_properties(src), Ok((None, Some("-12".to_string()))));
    let src = b"<plist><array/></plist>";
    assert_eq!(read_properties(src), Ok((None, None)));
    let r = read_properties(b"not a plist");
    assert!(r.unwrap_err().starts_with("Metadata/Properties.plist unreadable: "));
}

#[test]
fn plist_values_as_text() {
    let v = parse(b"<plist><true/></plist>").unwrap();
    assert_eq!(plist_value_as_string(&v), None);
    let v = parse(b"<plist><array><true/></array></plist>").unwrap();
    assert_eq!(plist_value_as_string(&v), None);
    let v = parse(b"<plist><string>x</string></plist>").unwrap();
    assert_eq!(plist_value_as_string(&v), Some("x".to_string()));
}

#[test]
fn build_history_keeps_the_last_ten() {
    let mut src = String::from("<plist><array>");
    for i in 0..12 {
        src.push_str(&format!("<string>v{i}</string>"));
    }
    src.push_str("<dict><key>Version</key><string>15</string><key>Build</key><string>7020</string></dict>");
    src.push_str("<dict><key>Build</key><string>8000</string></dict>");
    src.push_str("<dict><key>Other</key><string>x</string></dict>");
    src.push_str("<integer>5</integer>");
    src.push_str("</array></plist>");
    let h = read_build_history(src.as_bytes()).unwrap().unwrap();
    assert_eq!(h.len(), 10);
    assert_eq!(h[0], "v4");
    assert_eq!(h[8], "15 (7020)");
    assert_eq!(h[9], "8000");
    assert_eq!(
        read_build_history(b"<plist><string>x</string></plist>"),
        Ok(None)
    );
    assert!(read_build_history(b"<plist>").is_err());
}

#[test]
fn document_identifiers() {
    assert_eq!(read_document_id(b"  ABC-123\n"), Some("ABC-123".to_string()));
    assert_eq!(read_document_id(b" \t\n"), None);
    assert_eq!(read_document_id(b"a\xffb"), Some("a\u{fffd}b".to_string()));
}

#[test]
fn media_members() {
    assert!(is_data_member("Data/pic.jpeg", "pic.jpeg"));
    assert!(is_data_member("MyDoc.key/Data/pic.jpeg", "pic.jpeg"));
    assert!(!is_data_member("Data/pic.jpeg.bak", "pic.jpeg"));
    assert!(!is_data_member("OtherData/pic.jpeg", "pic.jpeg"));
    let names = vec!["Index/Document.iwa".to_string(), "x/Data/a.png".to_string()];
    assert!(has_data_file(&names, "a.png"));
    assert!(!has_data_file(&names, "b.png"));
}
