use pnk2json::plist_lite::{parse, Value};

#[test]
fn xml_array_of_strings() {
    let src = b"<?xml version=\"1.0\" encoding=\"UTF-8\"?>\n<!DOCTYPE plist PUBLIC \"-//Apple//DTD PLIST 1.0//EN\" \"http://www.apple.com/DTDs/PropertyList-1.0.dtd\">\n<plist version=\"1.0\">\n<array>\n\t<string>M13.1-7020-1</string>\n\t<string>Template: Basic &amp; White (15.3)</string>\n</array>\n</plist>\n";
    let v = parse(src).unwrap();
    let a = v.as_array().unwrap();
    assert_eq!(a.len(), 2);
    assert_eq!(a[1].as_string(), Some("Template: Basic & White (15.3)"));
}

#[test]
fn xml_dict_with_scalars() {
    let src = b"<plist version=\"1.0\"><dict><key>Version</key><string>15.3.1</string><key>Build</key><string>7020</string><key>n</key><integer>42</integer><key>ok</key><true/><key>when</key><date>2026-09-05T00:00:00Z</date><key>empty</key><array/></dict></plist>";
    let v = parse(src).unwrap();
    let d = v.as_dict().unwrap();
    assert_eq!(d.get("Version").unwrap().as_string(), Some("15.3.1"));
    assert_eq!(d.get("n").unwrap(), &Value::Integer(42));
    assert_eq!(d.get("ok").unwrap(), &Value::Bool(true));
    assert_eq!(d.get("when").unwrap(), &Value::Other);
    assert_eq!(d.get("empty").unwrap().as_array().unwrap().len(), 0);
}

#[test]
fn garbage_is_an_error() {
    assert!(parse(b"\xa5\xbd\x92\xac\x9bZ:;L1.\xf4\x9du").is_err());
    assert!(parse(b"bplist00\x00\x00\x00").is_err());
    assert!(parse(b"<plist><dict><string>no key</string></dict></plist>").is_err());
}

/// plistlib.dumps({"fileFormatVersion": "15.3", "isMultiPage": False,
///   "revision": "1", "shareUUID": "9E8F-é", "n": 300}, fmt=FMT_BINARY)
fn properties_bplist() -> Vec<u8> {
    vec![
        0x62, 0x70, 0x6c, 0x69, 0x73, 0x74, 0x30, 0x30, 0xd5, 0x01, 0x02, 0x03, 0x04, 0x05, 0x06,
        0x07, 0x08, 0x09, 0x0a, 0x5f, 0x10, 0x11, 0x66, 0x69, 0x6c, 0x65, 0x46, 0x6f, 0x72, 0x6d,
        0x61, 0x74, 0x56, 0x65, 0x72, 0x73, 0x69, 0x6f, 0x6e, 0x5b, 0x69, 0x73, 0x4d, 0x75, 0x6c,
        0x74, 0x69, 0x50, 0x61, 0x67, 0x65, 0x51, 0x6e, 0x58, 0x72, 0x65, 0x76, 0x69, 0x73, 0x69,
        0x6f, 0x6e, 0x59, 0x73, 0x68, 0x61, 0x72, 0x65, 0x55, 0x55, 0x49, 0x44, 0x54, 0x31, 0x35,
        0x2e, 0x33, 0x08, 0x11, 0x01, 0x2c, 0x51, 0x31, 0x66, 0x00, 0x39, 0x00, 0x45, 0x00, 0x38,
        0x00, 0x46, 0x00, 0x2d, 0x00, 0xe9, 0x08, 0x13, 0x27, 0x33, 0x35, 0x3e, 0x48, 0x4d, 0x4e,
        0x51, 0x53, 0x00, 0x00, 0x00, 0x00, 0x00, 0x00, 0x01, 0x01, 0x00, 0x00, 0x00, 0x00, 0x00,
        0x00, 0x00, 0x0b, 0x00, 0x00, 0x00, 0x00, 0x00, 0x00, 0x00, 0x00, 0x00, 0x00, 0x00, 0x00,
        0x00, 0x00, 0x00, 0x60,
    ]
}

#[test]
fn binary_dict() {
    let bytes = properties_bplist();
    let v = parse(&bytes).unwrap();
    let d = v.as_dict().unwrap();
    assert_eq!(d.get("fileFormatVersion").unwrap().as_string(), Some("15.3"));
    assert_eq!(d.get("isMultiPage").unwrap(), &Value::Bool(false));
    assert_eq!(d.get("revision").unwrap().as_string(), Some("1"));
    assert_eq!(d.get("shareUUID").unwrap().as_string(), Some("9E8F-\u{e9}"));
    assert_eq!(d.get("n").unwrap(), &Value::Integer(300));
}

#[test]
fn binary_dict_has_five_keys() {
    let bytes = properties_bplist();
    let v = parse(&bytes).unwrap();
    assert_eq!(v.as_dict().unwrap().len(), 5);
    assert!(v.as_dict().unwrap().get("missing").is_none());
}

#[test]
fn binary_trailer_errors_are_named() {
    let mut bytes = properties_bplist();
    assert_eq!(parse(&bytes[..39]).unwrap_err(), "binary plist too short");
    let n = bytes.len();
    // offset-int size 0 is refused
    bytes[n - 32 + 6] = 0;
    assert_eq!(parse(&bytes).unwrap_err(), "binary plist: bad trailer sizes");
}

#[test]
fn binary_unknown_marker_is_reported_in_hex() {
    let mut bytes = properties_bplist();
    // the top object's marker byte sits right after the header
    bytes[8] = 0x70;
    assert_eq!(parse(&bytes).unwrap_err(), "binary plist: unknown marker 0x70");
}

#[test]
fn xml_entities_and_numbers() {
    let src = b"<plist><array><string>&lt;a&gt; &#65;&#x42; &bogus; &#xD800; tail&</string><integer> -17 </integer><integer>9223372036854775808</integer><real>1.5</real><false/></array></plist>";
    let v = parse(src).unwrap();
    let a = v.as_array().unwrap();
    assert_eq!(a[0].as_string(), Some("<a> AB &bogus; &#xD800; tail&"));
    assert_eq!(a[1], Value::Integer(-17));
    assert_eq!(a[2], Value::Other);
    assert_eq!(a[3], Value::Other);
    assert_eq!(a[4], Value::Bool(false));
}

#[test]
fn xml_bom_comment_and_close_errors() {
    let src = b"\xEF\xBB\xBF<!-- hi --><plist><dict><key>k</key><string>v</string></dict></plist>";
    let v = parse(src).unwrap();
    assert_eq!(v.as_dict().unwrap().get("k").unwrap().as_string(), Some("v"));
    assert_eq!(parse(b"<plist><string>v</strin></plist>").unwrap_err(), "xml plist: expected </string>");
    assert_eq!(parse(b"<plist><foo/></plist>").unwrap_err(), "xml plist: unexpected <foo>");
    assert_eq!(parse(b"<html></html>").unwrap_err(), "xml plist: no <plist> element");
}

#[test]
fn xml_dict_keys_replace_and_sort() {
    let src = b"<plist><dict><key>b</key><integer>1</integer><key>a</key><integer>2</integer><key>b</key><integer>3</integer></dict></plist>";
    let v = parse(src).unwrap();
    let d = v.as_dict().unwrap();
    assert_eq!(d.len(), 2);
    assert_eq!(d.get("b").unwrap(), &Value::Integer(3));
    assert_eq!(d.get("a").unwrap(), &Value::Integer(2));
}

#[test]
fn xml_nesting_limit() {
    let mut src = b"<plist>".to_vec();
    for _ in 0..40 {
        src.extend_from_slice(b"<array>");
    }
    assert_eq!(parse(&src).unwrap_err(), "xml plist: nesting too deep");
}

#[test]
fn an_unclosed_plist_is_an_error() {
    assert!(parse(b"<plist><string>x</string>").is_err());
    assert!(parse(b"<plist><string>x</string></dict>").is_err());
    assert!(parse(b"<plist version=\"1.0\"><string>x</string>\n</plist>\n").is_ok());
}
