use pnk2json::charts::chart_type;
use pnk2json::cli::{output_mode, OutputMode};
use pnk2json::dumptext::{escape_md, warnings_block};
use pnk2json::loader::is_command_name;
use pnk2json::model::{ChartType, NumberSurround, TableMerge, Warning, WarningCode};
use pnk2json::pages::para_index_at;
use pnk2json::styles::number_surround_of;
use pnk2json::tables::push_merge;
use pnk2json::{aggregate_warnings, escape_review_hazards};

#[test]
fn list_number_surroundings() {
    assert_eq!(number_surround_of(0), None);
    assert_eq!(number_surround_of(1), Some(NumberSurround::DoubleParen));
    assert_eq!(number_surround_of(2), Some(NumberSurround::Paren));
    assert_eq!(number_surround_of(47), Some(NumberSurround::Paren));
    assert_eq!(number_surround_of(48), Some(NumberSurround::Bare));
    assert_eq!(number_surround_of(49), None);
    assert_eq!(number_surround_of(50), Some(NumberSurround::DoubleParen));
    assert_eq!(number_surround_of(61), Some(NumberSurround::Bare));
    assert_eq!(number_surround_of(64), Some(NumberSurround::Paren));
    assert_eq!(number_surround_of(65), None);
}

#[test]
fn chart_type_codes() {
    assert_eq!(chart_type(1), (ChartType::Column, false));
    assert_eq!(chart_type(16), (ChartType::Pie, true));
    assert_eq!(chart_type(20), (ChartType::Column, false));
    assert_eq!(chart_type(26), (ChartType::Donut, true));
    assert_eq!(chart_type(27), (ChartType::Radar, false));
    assert_eq!(chart_type(10), (ChartType::Other, false));
    assert_eq!(chart_type(99), (ChartType::Other, false));
}

#[test]
fn command_names() {
    assert!(is_command_name("TSWP.InsertTextCommandArchive"));
    assert!(is_command_name("TSK.CommandHistory"));
    assert!(is_command_name("TSWP.TextSelectionArchive"));
    assert!(!is_command_name("TSWP.StorageArchive"));
    assert!(!is_command_name("TSK.HistoryArchive"));
    assert!(!is_command_name(""));
}

#[test]
fn merges_are_clipped_to_the_table() {
    let mut m = Vec::new();
    push_merge(&mut m, 1, 1, 2, 3, 10, 10);
    push_merge(&mut m, 0, 0, 0, 0, 10, 10);
    push_merge(&mut m, 12, 0, 13, 1, 10, 10);
    push_merge(&mut m, 8, 8, 20, 20, 10, 10);
    push_merge(&mut m, 0, 0, 5, 5, 0, 10);
    assert_eq!(
        m,
        vec![
            TableMerge {
                anchor_row: 1,
                anchor_column: 1,
                row_span: 2,
                column_span: 3
            },
            TableMerge {
                anchor_row: 8,
                anchor_column: 8,
                row_span: 2,
                column_span: 2
            }
        ]
    );
}

#[test]
fn paragraph_index_of_offsets() {
    assert_eq!(para_index_at("ab\ncd\nef", 0), 0);
    assert_eq!(para_index_at("ab\ncd\nef", 3), 1);
    assert_eq!(para_index_at("ab\ncd\nef", 7), 2);
    assert_eq!(para_index_at("ab\ncd", 100), 1);
    // a section break at the offset belongs to the next paragraph
    assert_eq!(para_index_at("ab\u{4}cd", 2), 1);
    // a surrogate pair counts two UTF-16 units
    assert_eq!(para_index_at("\u{1F600}\nx", 3), 1);
}

#[test]
fn markdown_cells() {
    assert_eq!(escape_md("a|b\nc"), "a\\|b c");
    assert_eq!(escape_md(""), "");
}

fn warning(code: WarningCode, message: &str, path: Option<&str>, detail: Option<&str>) -> Warning {
    Warning {
        code,
        message: message.to_string(),
        path: path.map(|s| s.to_string()),
        detail: detail.map(|s| s.to_string()),
        count: None,
        paths: None,
    }
}

#[test]
fn warning_notes() {
    let mut out = String::from("x");
    warnings_block(&[], &mut out, true);
    assert_eq!(out, "x");
    let ws = [warning(WarningCode::MediaMissing, "gone", None, None)];
    warnings_block(&ws, &mut out, true);
    assert_eq!(out, "x\n> **Warnings (1):** 1 conversion note(s); first: gone\n");
    let mut out = String::new();
    warnings_block(&ws, &mut out, false);
    assert_eq!(out, "\nWarnings: 1 recorded.\n");
}

#[test]
fn command_line_modes() {
    assert_eq!(output_mode(false, false, false), Ok(OutputMode::PrettyJson));
    assert_eq!(output_mode(false, false, true), Ok(OutputMode::CompactJson));
    assert_eq!(output_mode(true, false, true), Ok(OutputMode::Text));
    assert_eq!(output_mode(false, true, false), Ok(OutputMode::Markdown));
    assert_eq!(
        output_mode(true, true, false),
        Err("--text and --markdown are mutually exclusive".to_string())
    );
}

#[test]
fn json_hazards_are_escaped() {
    assert_eq!(escape_review_hazards("{\"a\": \"b\"}"), "{\"a\": \"b\"}");
    assert_eq!(
        escape_review_hazards("x\u{2028}y\u{a0}z\u{feff}\t"),
        "x\\u2028y\\u00a0z\\ufeff\t"
    );
}

#[test]
fn warning_floods_collapse() {
    let ws = vec![
        warning(WarningCode::TableDegraded, "cell r1c1 dropped", Some("r1c1"), None),
        warning(WarningCode::TableDegraded, "cell r0c3 dropped", Some("r0c3"), None),
        warning(WarningCode::MediaMissing, "media 12 missing", None, Some("a.png")),
        warning(WarningCode::MediaMissing, "media 13 missing", None, Some("b.png")),
        warning(WarningCode::TableDegraded, "cell r7c7 dropped", Some("r1c1"), None),
        warning(WarningCode::UnsupportedFeature, "cell r1c1 dropped", None, None),
    ];
    let out = aggregate_warnings(ws);
    assert_eq!(out.len(), 4);
    assert_eq!(out[0].message, "cell r1c1 dropped");
    assert_eq!(out[0].count, Some(3));
    assert_eq!(
        out[0].paths,
        Some(vec!["r1c1".to_string(), "r0c3".to_string()])
    );
    // identity-coded rows keep distinct details apart
    assert_eq!(out[1].detail, Some("a.png".to_string()));
    assert_eq!(out[1].count, None);
    assert_eq!(out[2].detail, Some("b.png".to_string()));
    assert_eq!(out[3].code, WarningCode::UnsupportedFeature);
}

#[test]
fn warning_example_paths_stop_at_five() {
    let ws: Vec<Warning> = (0..8)
        .map(|i| {
            let p = format!("r{i}c0");
            warning(WarningCode::TableDegraded, &format!("cell {p} dropped"), Some(&p), None)
        })
        .collect();
    let out = aggregate_warnings(ws);
    assert_eq!(out.len(), 1);
    assert_eq!(out[0].count, Some(8));
    assert_eq!(out[0].paths.as_ref().map(|p| p.len()), Some(5));
}

#[test]
fn counters_sum_to_the_bumps() {
    let mut c = pnk2json::ctx::Counter::new();
    for k in ["b", "a", "b", "c", "b"] {
        c.bump(k.to_string());
    }
    let v = c.drain();
    assert_eq!(v, vec![("a".to_string(), 1), ("b".to_string(), 3), ("c".to_string(), 1)]);
    assert_eq!(v.iter().map(|e| e.1).sum::<u64>(), 5);
    assert!(pnk2json::ctx::Counter::new().drain().is_empty());
}

#[test]
fn media_kinds_follow_the_last_extension() {
    assert_eq!(pnk2json::ctx::media_kind("photo.tar.PNG"), pnk2json::ctx::media_kind("x.png"));
    assert_eq!(pnk2json::ctx::media_kind("clip.MoV"), pnk2json::ctx::media_kind("x.mov"));
    assert_eq!(pnk2json::ctx::media_kind("a.b.weird"), pnk2json::ctx::media_kind("x.weird"));
}
