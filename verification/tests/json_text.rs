use pnk2json::escape_review_hazards;
use serde_json::Value;

/// A one-slide document's JSON shape holding `text` as its single
/// paragraph item (slides → drawables → text → paragraphs → items).
fn document_with_text(text: &str) -> Value {
    let mut paragraph = serde_json::Map::new();
    paragraph.insert("items".to_string(), Value::Array(vec![Value::String(text.to_string())]));
    let mut styled = serde_json::Map::new();
    styled.insert("paragraphs".to_string(), Value::Array(vec![Value::Object(paragraph)]));
    let mut drawable = serde_json::Map::new();
    drawable.insert("type".to_string(), Value::String("textbox".to_string()));
    drawable.insert("text".to_string(), Value::Object(styled));
    let mut slide = serde_json::Map::new();
    slide.insert("drawables".to_string(), Value::Array(vec![Value::Object(drawable)]));
    let mut doc = serde_json::Map::new();
    doc.insert("kind".to_string(), Value::String("keynote".to_string()));
    doc.insert("slides".to_string(), Value::Array(vec![Value::Object(slide)]));
    Value::Object(doc)
}

#[test]
fn json_escapes_zs_cf_code_points() {
    let input = "a\u{00a0}b\u{200b}c\u{200d}d\u{202f}e\u{3000}f";
    let pretty = serde_json::to_string_pretty(&document_with_text(input)).unwrap();
    let json = escape_review_hazards(&pretty);
    // raw Zs/Cf code points must be absent
    for (name, cp) in [
        ("NBSP", '\u{00a0}'),
        ("ZWSP", '\u{200b}'),
        ("ZWNJ", '\u{200c}'),
        ("ZWJ", '\u{200d}'),
        ("narrow-NBSP", '\u{202f}'),
        ("ideographic-space", '\u{3000}'),
        ("LS", '\u{2028}'),
        ("PS", '\u{2029}'),
    ] {
        assert!(!json.contains(cp), "raw {name} (U+{:04X}) leaked into JSON output", cp as u32);
    }
    // escaped forms present
    assert!(json.contains("\\u00a0"), "NBSP escape missing");
    assert!(json.contains("\\u200b"), "ZWSP escape missing");
    assert!(json.contains("\\u200d"), "ZWJ escape missing");
    assert!(json.contains("\\u202f"), "narrow-NBSP escape missing");
    assert!(json.contains("\\u3000"), "ideographic-space escape missing");
    // plain space stays raw
    assert!(json.contains(' '), "plain space must stay raw");
    // the decoded string is identical to the input
    let back: Value = serde_json::from_str(&json).unwrap();
    let text = back["slides"][0]["drawables"][0]["text"]["paragraphs"][0]["items"][0].as_str().unwrap();
    assert_eq!(text, input);
}
