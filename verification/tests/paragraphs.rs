use pnk2json::model::WarningCode;
use pnk2json::text::{advance_list, drop_cap_at, in_deleted, list_membership, note_tracked_changes, paragraph_style, Entry, enter_text_storage, paragraph_at, paragraph_ranges, run_boundaries};

#[test]
fn breaks_split_paragraphs_and_page_breaks_mark_the_next() {
    let (ranges, pbb) = paragraph_ranges("One\nTwo\u{5}Three\u{4}Four");
    assert_eq!(ranges, vec![(0, 3), (4, 7), (8, 13), (14, 18)]);
    assert_eq!(pbb, vec![false, false, true, false]);
}

#[test]
fn a_text_without_breaks_is_one_paragraph() {
    let (ranges, pbb) = paragraph_ranges("");
    assert_eq!(ranges, vec![(0, 0)]);
    assert_eq!(pbb, vec![false]);
    let (ranges, _) = paragraph_ranges("\n");
    assert_eq!(ranges, vec![(0, 0), (1, 1)]);
}

#[test]
fn offsets_past_the_end_land_in_the_last_paragraph() {
    let (ranges, _) = paragraph_ranges("ab\ncd");
    assert_eq!(paragraph_at(&ranges, 0), 0);
    assert_eq!(paragraph_at(&ranges, 2), 0);
    assert_eq!(paragraph_at(&ranges, 3), 1);
    assert_eq!(paragraph_at(&ranges, 99), 1);
    assert_eq!(paragraph_at(&Vec::new(), 5), 0);
}

#[test]
fn storages_nested_past_the_limit_are_dropped_with_a_warning() {
    let mut w = Vec::new();
    assert!(enter_text_storage(7, &mut w));
    assert!(w.is_empty());
    assert!(!enter_text_storage(8, &mut w));
    assert_eq!(w.len(), 1);
    assert_eq!(w[0].code, WarningCode::UnsupportedFeature);
    assert_eq!(w[0].message, "text storages nest deeper than 8 levels; inner content dropped");
}

#[test]
fn run_boundaries_are_sorted_unique_and_inside() {
    assert_eq!(run_boundaries(10, 20, &vec![15, 3, 12, 15, 20, 25, 10, 11]), vec![10, 11, 12, 15, 20]);
    assert_eq!(run_boundaries(4, 4, &vec![4, 5]), vec![4]);
}

#[test]
fn list_numbers_continue_restart_and_reset_deeper_levels() {
    let mut c: Vec<u32> = Vec::new();
    // "1. Turnus" then "1.1" .. "1.2", "2. Turnus" then "2.1"
    assert_eq!(advance_list(&mut c, 0, 1, true), Some(1));
    assert_eq!(advance_list(&mut c, 1, 0, true), Some(1));
    assert_eq!(advance_list(&mut c, 1, 0, true), Some(2));
    assert_eq!(advance_list(&mut c, 0, 0, true), Some(2));
    assert_eq!(c, vec![2]);
    assert_eq!(advance_list(&mut c, 1, 0, true), Some(1));
    // a stored number restarts the level
    assert_eq!(advance_list(&mut c, 1, 7, true), Some(7));
    // a bullet item prints no number but still cuts deeper levels
    assert_eq!(advance_list(&mut c, 0, 0, false), None);
    assert_eq!(c, vec![2]);
}

fn e(utf16_off: usize, object_id: Option<u64>) -> Entry {
    Entry { utf16_off, object_id }
}

#[test]
fn paragraph_styles_carry_forward_over_null_entries() {
    let entries = vec![e(0, Some(1)), e(10, None), e(20, Some(2))];
    assert_eq!(paragraph_style(&entries, 0, None), Some(1));
    // a null entry keeps the previous paragraph's style
    assert_eq!(paragraph_style(&entries, 10, Some(1)), Some(1));
    // an entry before the start does not override a carried style ...
    assert_eq!(paragraph_style(&entries, 25, Some(1)), Some(1));
    // ... but sets one when nothing is carried
    assert_eq!(paragraph_style(&entries, 25, None), Some(2));
    assert_eq!(paragraph_style(&entries, 20, Some(1)), Some(2));
}

#[test]
fn drop_caps_apply_only_exactly_at_their_entry() {
    let entries = vec![e(0, None), e(6366, Some(9))];
    assert_eq!(drop_cap_at(&entries, 6366), Some(9));
    assert_eq!(drop_cap_at(&entries, 7000), None);
    assert_eq!(drop_cap_at(&entries, 0), None);
}

#[test]
fn tracked_changes_are_noted_once_and_deleted_runs_found() {
    let mut w = Vec::new();
    note_tracked_changes(&vec![], &vec![], &mut w);
    assert!(w.is_empty());
    note_tracked_changes(&vec![(0, 3)], &vec![(5, 9), (12, 14)], &mut w);
    assert_eq!(w.len(), 1);
    assert_eq!(w[0].code, WarningCode::UnsupportedFeature);
    assert_eq!(w[0].message, "tracked changes: 1 insertion(s) kept, 2 deletion(s) omitted; text is the accepted view");
    let deleted = vec![(5, 9), (12, 14)];
    assert!(in_deleted(&deleted, 5));
    assert!(in_deleted(&deleted, 13));
    assert!(!in_deleted(&deleted, 9));
    assert!(!in_deleted(&deleted, 0));
}

#[test]
fn list_membership_carries_until_the_next_entry() {
    // a list from offset 0, cleared at 20
    let entries = vec![e(0, Some(7)), e(20, None)];
    let para_data = vec![(0usize, 0u64, 0u64), (10, 1, 0), (15, 9, 0)];
    let para_starts = vec![(0usize, 1u64, 0u64), (10, 0, 0)];
    let r = list_membership(&entries, &vec![0, 10, 15, 20, 30], &para_data, &para_starts);
    assert_eq!(r, vec![Some((7, 0, 1)), Some((7, 1, 0)), Some((7, 8, 0)), None, None]);
}
