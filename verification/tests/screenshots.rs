use aurora::idset::IdSet;
use aurora::screenshots::{
    delete_message, name_stamp, rename_target, sort_mode_of, CopyState, ScreenshotHandler, SortMode, ThumbCache,
    THUMB_CACHE_MAX,
};

fn paths(v: &[&str]) -> Vec<String> {
    v.iter().map(|s| s.to_string()).collect()
}

#[test]
fn names_read_as_dates() {
    assert_eq!(name_stamp("24_05_17_13_45_02"), Some((1715953502, "2024-05-17 13:45".to_string())));
    assert_eq!(name_stamp("24_02_30_13_45_02"), None);
    assert_eq!(name_stamp("24_05_17_13_45"), None);
    assert_eq!(name_stamp("holiday"), None);
}

#[test]
fn rename_targets() {
    assert_eq!(rename_target(" sunset "), Some("sunset.png".to_string()));
    assert_eq!(rename_target("sunset.PNG"), Some("sunset.PNG".to_string()));
    assert_eq!(rename_target("a/b"), None);
    assert_eq!(rename_target("  "), None);
}

#[test]
fn sort_modes_and_messages() {
    assert_eq!(sort_mode_of(0), SortMode::Newest);
    assert_eq!(sort_mode_of(1), SortMode::Oldest);
    assert_eq!(sort_mode_of(2), SortMode::Name);
    assert_eq!(
        delete_message(&paths(&["a.png"])),
        "\"a.png\" will be permanently deleted. This cannot be undone."
    );
    assert_eq!(
        delete_message(&paths(&["a.png", "b.png"])),
        "2 screenshots will be permanently deleted. This cannot be undone."
    );
}

#[test]
fn thumbnail_cache_stays_bounded() {
    let mut c: ThumbCache<u32> = ThumbCache::new();
    for i in 0..(THUMB_CACHE_MAX as u32 + 10) {
        c.insert(&format!("p{i}"), i);
    }
    assert!(c.len() <= THUMB_CACHE_MAX);
    let last = format!("p{}", THUMB_CACHE_MAX as u32 + 9);
    assert_eq!(c.get(&last), Some(&(THUMB_CACHE_MAX as u32 + 9)));
    c.insert("p0", 7);
    assert_eq!(c.get("p0"), Some(&7));
    let keep = IdSet::from_ids(&paths(&["p0"]));
    c.retain(&keep);
    assert_eq!(c.len(), 1);
    assert!(c.contains_key("p0"));
    assert!(!c.contains_key(&last));
}

#[test]
fn gallery_selection_and_deletion() {
    let mut h = ScreenshotHandler::new();
    h.show(paths(&["a", "b", "c"]));
    assert_eq!(h.path_at(1), Some("b".to_string()));
    assert_eq!(h.path_at(3), None);
    assert_eq!(h.path_at(-1), None);
    assert_eq!(h.toggle_select(2), Some((true, 1)));
    assert_eq!(h.toggle_select(0), Some((true, 2)));
    assert_eq!(h.toggle_select(9), None);
    assert_eq!(h.selected_paths(), paths(&["a", "c"]));
    h.show(paths(&["c", "d"]));
    assert_eq!(h.selected_paths(), paths(&["c"]));
    assert_eq!(h.request_delete(vec![], &vec![]), None);
    let asked = h.request_delete(paths(&["c"]), &paths(&["c.png"]));
    assert!(asked.is_some());
    h.cancel_delete();
    assert!(h.confirm_delete().is_empty());
    h.request_delete(paths(&["c"]), &paths(&["c.png"]));
    assert_eq!(h.confirm_delete(), paths(&["c"]));
    h.forget(&paths(&["c"]));
    assert!(h.selected_paths().is_empty());
    h.toggle_select(0);
    h.clear_selection();
    assert!(h.selected_paths().is_empty());
    h.set_sort_mode(SortMode::Name);
    h.set_favorites_only(true);
    assert_eq!(h.ordering(), (SortMode::Name, true));
}

#[test]
fn cached_thumbnails_read_back() {
    let mut c: ThumbCache<u32> = ThumbCache::new();
    c.insert("a", 1);
    c.insert("b", 2);
    c.insert("a", 3);
    assert_eq!(c.get("a"), Some(&3));
    assert_eq!(c.get("b"), Some(&2));
    assert_eq!(c.get("c"), None);
    assert_eq!(c.len(), 2);
}

#[test]
fn only_the_latest_copy_reports() {
    let mut h = ScreenshotHandler::new();
    let first = h.begin_copy();
    let second = h.begin_copy();
    assert_eq!(h.copy_report(first, true), None);
    assert_eq!(h.copy_report(second, true), Some(CopyState::Copied));
    assert_eq!(h.copy_report(second, false), Some(CopyState::Failed));
}

#[test]
fn name_dates_count_seconds_from_the_epoch() {
    let (secs, text) = name_stamp("24_02_29_12_30_15").unwrap();
    assert_eq!(secs, 19782 * 86400 + 12 * 3600 + 30 * 60 + 15);
    assert_eq!(text, "2024-02-29 12:30");
}
