use pnk2json::ctx::{collect_font, is_locale_token, media_kind, Counter, StylePool};
use pnk2json::model::MediaKind;

#[test]
fn media_kinds_from_extensions() {
    assert_eq!(media_kind("photo.PNG"), MediaKind::Image);
    assert_eq!(media_kind("a.b.jpeg"), MediaKind::Image);
    assert_eq!(media_kind("clip.mov"), MediaKind::Movie);
    assert_eq!(media_kind("song.M4A"), MediaKind::Audio);
    assert_eq!(media_kind("doc.pdf"), MediaKind::Pdf);
    assert_eq!(media_kind("README"), MediaKind::Other);
    assert_eq!(media_kind("pdf"), MediaKind::Pdf);
    assert_eq!(media_kind("archive.pdf.zip"), MediaKind::Other);
    assert_eq!(media_kind("trailing."), MediaKind::Other);
}

#[test]
fn style_pool_dedups_by_key() {
    let mut pool: StylePool<&str> = StylePool::new();
    assert_eq!(pool.intern("empty", "{}".to_string()), None);
    assert_eq!(pool.intern("bold", "{\"bold\":true}".to_string()), Some(0));
    assert_eq!(pool.intern("italic", "{\"italic\":true}".to_string()), Some(1));
    assert_eq!(pool.intern("bold again", "{\"bold\":true}".to_string()), Some(0));
    assert_eq!(pool.items, vec!["bold", "italic"]);
}

#[test]
fn counter_drains_sorted_counts() {
    let mut c = Counter::new();
    c.bump("b".to_string());
    c.bump("a".to_string());
    c.bump("b".to_string());
    c.bump("\u{e9}".to_string());
    c.bump("B".to_string());
    assert_eq!(
        c.drain(),
        vec![
            ("B".to_string(), 1),
            ("a".to_string(), 1),
            ("b".to_string(), 2),
            ("\u{e9}".to_string(), 1)
        ]
    );
    assert_eq!(Counter::new().drain(), vec![]);
}

#[test]
fn fonts_are_deduplicated_and_sorted() {
    let mut fonts: Vec<String> = Vec::new();
    collect_font(&mut fonts, "Helvetica");
    collect_font(&mut fonts, "Arial");
    collect_font(&mut fonts, "");
    collect_font(&mut fonts, "Helvetica");
    collect_font(&mut fonts, "Zapfino");
    assert_eq!(fonts, vec!["Arial", "Helvetica", "Zapfino"]);
}

#[test]
fn locale_tokens() {
    assert!(is_locale_token("en_US"));
    assert!(is_locale_token("fr"));
    assert!(!is_locale_token(""));
    assert!(!is_locale_token("1en"));
    assert!(!is_locale_token("en US"));
    assert!(!is_locale_token("english_us"));
    assert!(!is_locale_token("en\u{a0}"));
}

#[test]
fn a_drained_counter_counts_each_key_once_in_order() {
    let mut c = pnk2json::ctx::Counter::new();
    for k in ["b", "a", "b", "c", "b"] {
        c.bump(k.to_string());
    }
    let v = c.drain();
    let keys: Vec<(&str, u64)> = v.iter().map(|(k, n)| (k.as_str(), *n)).collect();
    assert_eq!(keys, vec![("a", 1), ("b", 3), ("c", 1)]);
    assert!(pnk2json::ctx::Counter::new().drain().is_empty());
}
