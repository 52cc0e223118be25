use aurora::gbbrowser::{missing_thumbs, visible_range, GbBrowserHandler, GbEntry, ThumbRestorer, RESTORE_FAILED_LIMIT};
use aurora::logwindow::{copy_text, Level, LogEntry, LogView};

fn log(level: Level, module: &str, message: &str) -> LogEntry {
    LogEntry { timestamp: "12:00:00".to_string(), level, module: module.to_string(), message: message.to_string() }
}

#[test]
fn log_view_filters_trims_and_widens() {
    let mut v = LogView::new(0, 3);
    v.rebuild(&vec![log(Level::Info, "core", "a\nb"), log(Level::Error, "net", "x")], 2);
    assert_eq!(v.lines().len(), 2);
    assert_eq!(v.lines()[0].message, "a b");
    assert_eq!(v.column_chars(), (4, 3));
    assert!(!v.append(&vec![], 2));
    assert!(v.append(&vec![log(Level::Debug, "storage", "y"), log(Level::Warn, "ui", "zzzz")], 4));
    let modules: Vec<String> = v.lines().iter().map(|l| l.module.clone()).collect();
    assert_eq!(modules, vec!["net", "storage", "ui"]);
    assert_eq!(v.column_chars(), (7, 4));

    v.set_filter(1);
    v.rebuild(&vec![log(Level::Info, "core", "a"), log(Level::Error, "net", "x")], 2);
    assert_eq!(v.lines().len(), 1);
    assert_eq!(v.column_chars(), (3, 1));
    assert!(!v.append(&vec![log(Level::Info, "core", "b")], 3));
}

#[test]
fn copied_logs_keep_the_filter() {
    let entries = vec![log(Level::Info, "core", "started"), log(Level::Error, "net", "down")];
    assert_eq!(copy_text(&entries, 0), "[12:00:00 INFO core] started\n[12:00:00 ERROR net] down\n");
    assert_eq!(copy_text(&entries, 1), "[12:00:00 ERROR net] down\n");
}

#[test]
fn visible_rows_and_missing_thumbnails() {
    assert_eq!(visible_range(-3, 5, 10), Some((0, 5)));
    assert_eq!(visible_range(2, 50, 10), Some((2, 9)));
    assert_eq!(visible_range(10, 12, 10), None);
    assert_eq!(visible_range(4, 1, 10), Some((4, 1)));
    let rows = vec![(5, false), (6, true), (0, false), (-2, false), (9, false)];
    assert_eq!(missing_thumbs(&rows, 0, 4), vec![5, 9]);
    assert_eq!(missing_thumbs(&rows, 1, 3), Vec::<u32>::new());
    assert_eq!(missing_thumbs(&rows, 4, 1), Vec::<u32>::new());
}

fn entry(id: u32, urls: &[&str]) -> GbEntry<u8> {
    GbEntry {
        id,
        name: String::new(),
        author: String::new(),
        view_count: 0,
        download_count: 0,
        like_count: 0,
        is_nsfw: false,
        mod_url: String::new(),
        preview_urls: urls.iter().map(|u| u.to_string()).collect(),
        thumb: None,
    }
}

#[test]
fn thumbnails_are_fetched_once_and_failures_remembered() {
    let mut b: GbBrowserHandler<u8> = GbBrowserHandler::new();
    let (g, _, _) = b.begin_load(true).unwrap();
    b.receive(g, entry(1, &["u1", "u1b"]));
    b.receive(g, entry(2, &[]));
    b.receive(g, entry(3, &["u3"]));
    let mut r = ThumbRestorer::new();
    assert_eq!(r.plan(&vec![1, 2, 3, 4], &b), vec![(1, "u1".to_string()), (3, "u3".to_string())]);
    assert_eq!(r.plan(&vec![1, 3], &b), vec![]);
    r.finish(1, true);
    r.finish(3, false);
    assert_eq!(r.plan(&vec![1, 3], &b), vec![(1, "u1".to_string())]);
    let mut many = ThumbRestorer::new();
    for id in 100..(100 + RESTORE_FAILED_LIMIT as u32) {
        many.finish(id, false);
    }
    assert_eq!(many.plan(&vec![100], &b), vec![]);
    many.finish(100, false);
    assert_eq!(many.plan(&vec![3], &b), vec![(3, "u3".to_string())]);
}

#[test]
fn an_id_listed_twice_is_fetched_once() {
    let mut b: GbBrowserHandler<u8> = GbBrowserHandler::new();
    let (g, _, _) = b.begin_load(true).unwrap();
    b.receive(g, entry(7, &["u7"]));
    let mut r = ThumbRestorer::new();
    assert_eq!(r.plan(&vec![7, 7, 7], &b), vec![(7, "u7".to_string())]);
}

#[test]
fn appending_matches_a_rebuild() {
    let older = vec![log(Level::Info, "a", "1"), log(Level::Warn, "bb", "22")];
    let newer = vec![log(Level::Info, "ccc", "3"), log(Level::Error, "d", "4444")];
    let mut incremental = LogView::new(0, 3);
    incremental.rebuild(&older, 2);
    assert!(incremental.append(&newer, 4));
    let mut all = older;
    all.extend(newer);
    let mut full = LogView::new(0, 3);
    full.rebuild(&all, 4);
    let msgs = |v: &LogView| v.lines().iter().map(|l| l.message.clone()).collect::<Vec<_>>();
    assert_eq!(msgs(&incremental), vec!["22", "3", "4444"]);
    assert_eq!(msgs(&full), vec!["1", "22", "3", "4444"]);
    assert_eq!(incremental.column_chars(), full.column_chars());
}
