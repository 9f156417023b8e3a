use pnk2json::numbers::{cfuuid_from_parts, cfuuid_string};
use pnk2json::pb::Msg;

#[test]
fn cfuuid_text_from_bytes_or_words() {
    let bytes: Vec<u8> = (0u8..16).collect();
    assert_eq!(
        cfuuid_from_parts(Some(&bytes), [None, None, None, None]),
        Some("00010203-0405-0607-0809-0A0B0C0D0E0F".to_string())
    );
    assert_eq!(
        cfuuid_from_parts(None, [Some(0x7dae6bbf), Some(0x4444291e), Some(0x4d58ba8c), Some(0x1_974c36f4)]),
        Some("7DAE6BBF-4444-291E-4D58-BA8C974C36F4".to_string())
    );
    // 15 bytes do not count; the words are used instead
    assert_eq!(
        cfuuid_from_parts(Some(&bytes[..15]), [Some(1), Some(2), Some(3), Some(4)]),
        Some("00000001-0000-0002-0000-000300000004".to_string())
    );
    assert_eq!(cfuuid_from_parts(None, [Some(1), None, Some(3), Some(4)]), None);
}

#[test]
fn cfuuid_messages_read_bytes_or_words() {
    let mut b = vec![0x0a, 16];
    b.extend(0u8..16);
    assert_eq!(
        cfuuid_string(Msg::parse(&b).unwrap()),
        Some("00010203-0405-0607-0809-0A0B0C0D0E0F".to_string())
    );
    // { 2: 1, 3: 2, 4: 3, 5: 4 }
    let words = Msg::parse(&[0x10, 1, 0x18, 2, 0x20, 3, 0x28, 4]).unwrap();
    assert_eq!(cfuuid_string(words), Some("00000001-0000-0002-0000-000300000004".to_string()));
    assert_eq!(cfuuid_string(Msg::parse(&[0x10, 1]).unwrap()), None);
}
