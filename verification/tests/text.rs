use pnk2json::text::{
    entry_at, is_language_tag, para_level, para_list_number, primary_subtag, u16_to_char_index,
    utf16_map, valid_url, Entry,
};

#[test]
fn language_tags() {
    assert!(is_language_tag("en"));
    assert!(is_language_tag("en_US"));
    assert!(is_language_tag("zh-Hans"));
    assert!(!is_language_tag(""));
    assert!(!is_language_tag("__multilingual"));
    assert!(!is_language_tag("en US"));
    assert!(!is_language_tag("fr\u{e9}"));
}

#[test]
fn primary_subtags() {
    assert_eq!(primary_subtag("en_US"), "en");
    assert_eq!(primary_subtag("ZH-Hans"), "zh");
    assert_eq!(primary_subtag("De"), "de");
    assert_eq!(primary_subtag("_x"), "");
    assert_eq!(primary_subtag(""), "");
}

#[test]
fn utf16_offsets_count_surrogate_pairs() {
    assert_eq!(utf16_map(""), vec![0]);
    assert_eq!(utf16_map("ab"), vec![0, 1, 2]);
    // U+1F600 takes two UTF-16 units, é one
    assert_eq!(utf16_map("a\u{1F600}\u{e9}"), vec![0, 1, 3, 4]);
}

#[test]
fn utf16_offsets_map_to_chars() {
    let map = utf16_map("a\u{1F600}b");
    assert_eq!(map, vec![0, 1, 3, 4]);
    assert_eq!(u16_to_char_index(&map, 0), 0);
    assert_eq!(u16_to_char_index(&map, 1), 1);
    // inside the surrogate pair: the character it belongs to
    assert_eq!(u16_to_char_index(&map, 2), 1);
    assert_eq!(u16_to_char_index(&map, 3), 2);
    assert_eq!(u16_to_char_index(&map, 9), 3);
    assert_eq!(u16_to_char_index(&[], 5), 0);
}

#[test]
fn entries_at_offsets() {
    let entries = [
        Entry {
            utf16_off: 2,
            object_id: Some(10),
        },
        Entry {
            utf16_off: 5,
            object_id: None,
        },
        Entry {
            utf16_off: 9,
            object_id: Some(30),
        },
    ];
    assert!(entry_at(&entries, 1).is_none());
    assert_eq!(entry_at(&entries, 2).unwrap().object_id, Some(10));
    assert_eq!(entry_at(&entries, 6).unwrap().utf16_off, 5);
    assert_eq!(entry_at(&entries, 100).unwrap().object_id, Some(30));
    assert!(entry_at(&[], 3).is_none());
}

#[test]
fn paragraph_levels_and_numbers() {
    let data = [(0usize, 1u64, 0u64), (10, 12, 0), (20, 3, 0)];
    assert_eq!(para_level(&data, 0), 1);
    assert_eq!(para_level(&data, 15), 8);
    assert_eq!(para_level(&data, 25), 3);
    assert_eq!(para_level(&[(5, 2, 0)], 0), 0);
    let starts = [(0usize, 1u64, 0u64), (40, 6, 0), (90, 0, 0)];
    assert_eq!(para_list_number(&starts, 39), 1);
    assert_eq!(para_list_number(&starts, 40), 6);
    assert_eq!(para_list_number(&starts, 95), 0);
    assert_eq!(para_list_number(&[], 3), 0);
}

#[test]
fn link_targets() {
    assert!(valid_url("https://example.com"));
    assert!(valid_url("HTTP://EXAMPLE.COM"));
    assert!(valid_url("mailto:a@b.c"));
    assert!(valid_url("#section"));
    assert!(!valid_url(""));
    assert!(!valid_url("javascript:alert(1)"));
    assert!(!valid_url("file:///etc/passwd"));
    assert!(!valid_url("https://exa\nmple.com"));
    assert!(!valid_url("https://x\u{FFFD}"));
    assert!(!valid_url("http:/"));
}
