use aurora::duplicates::{content_hash, duplicate_groups, shared_sizes, unique, Candidate, Source};
use aurora::ordering::{key_lt_exec, stable_order, SortKey};
use aurora::screenshots::{ordered, Screenshot, SortMode};
use aurora::theme::list;

fn key(rank: u8, number: i128, text: &str) -> SortKey {
    SortKey { rank, number, text: text.chars().collect() }
}

#[test]
fn keys_compare_rank_number_then_text() {
    assert!(key_lt_exec(&key(0, 9, "z"), &key(1, 0, "a")));
    assert!(key_lt_exec(&key(1, -5, "z"), &key(1, 0, "a")));
    assert!(key_lt_exec(&key(1, 0, "ab"), &key(1, 0, "b")));
    assert!(key_lt_exec(&key(1, 0, "a"), &key(1, 0, "ab")));
    assert!(!key_lt_exec(&key(1, 0, "ab"), &key(1, 0, "ab")));
}

#[test]
fn stable_order_keeps_ties_in_place() {
    let keys = vec![key(0, 2, ""), key(0, 1, ""), key(0, 2, ""), key(0, 0, "")];
    assert_eq!(stable_order(&keys), vec![3, 1, 0, 2]);
    assert_eq!(stable_order(&vec![]), Vec::<usize>::new());
}

fn shot(name: &str, timestamp: i64, favorite: bool) -> Screenshot {
    Screenshot {
        path: format!("/p/{name}"),
        duplicates: vec![],
        file_name: name.to_string(),
        timestamp,
        date: String::new(),
        favorite,
    }
}

fn names(v: &[Screenshot]) -> Vec<String> {
    v.iter().map(|s| s.file_name.clone()).collect()
}

fn gallery() -> Vec<Screenshot> {
    vec![shot("b.png", 20, false), shot("A.png", 10, true), shot("c.png", 30, false), shot("d.png", 20, false)]
}

#[test]
fn gallery_orders_favorites_first() {
    assert_eq!(names(&ordered(gallery(), SortMode::Newest, false)), vec!["A.png", "c.png", "b.png", "d.png"]);
    assert_eq!(names(&ordered(gallery(), SortMode::Oldest, false)), vec!["A.png", "b.png", "d.png", "c.png"]);
    assert_eq!(names(&ordered(gallery(), SortMode::Name, false)), vec!["A.png", "b.png", "c.png", "d.png"]);
    assert_eq!(names(&ordered(gallery(), SortMode::Name, true)), vec!["A.png"]);
    let mixed = vec![shot("b", 0, false), shot("B", 0, false), shot("a", 0, false)];
    assert_eq!(names(&ordered(mixed, SortMode::Name, false)), vec!["a", "b", "B"]);
}

fn cand(path: &str, source: Source, size: u64) -> Candidate {
    Candidate { path: path.to_string(), source, size }
}

#[test]
fn copies_of_a_screenshot_are_shown_once() {
    let cands = vec![
        cand("/pics/b.png", Source::Pictures, 10),
        cand("/game/x.png", Source::Selfie, 10),
        cand("/pics/a.png", Source::Pictures, 10),
        cand("/pics/solo.png", Source::Pictures, 7),
        cand("/pics/unread.png", Source::Pictures, 10),
    ];
    assert_eq!(shared_sizes(&cands), vec![true, true, true, false, true]);
    let hashes = vec![Some(1), Some(1), Some(1), None, None];
    let groups = duplicate_groups(&cands, &hashes);
    assert_eq!(groups, vec![vec![1, 2, 0], vec![3], vec![4]]);
    let shots = unique(&cands, &hashes);
    assert_eq!(shots.len(), 3);
    assert_eq!(shots[0], ("/game/x.png".to_string(), vec!["/pics/a.png".to_string(), "/pics/b.png".to_string()]));
    assert_eq!(shots[1], ("/pics/solo.png".to_string(), vec![]));

    let different = vec![Some(1), Some(2), Some(1), None, Some(2)];
    let groups = duplicate_groups(&cands, &different);
    assert_eq!(groups, vec![vec![2, 0], vec![1, 4], vec![3]]);
}

#[test]
fn paths_sort_by_components() {
    let cands = vec![cand("/a-b/x.png", Source::Pictures, 5), cand("/a/x.png", Source::Pictures, 5)];
    let groups = duplicate_groups(&cands, &vec![Some(9), Some(9)]);
    assert_eq!(groups, vec![vec![1, 0]]);
}

#[test]
fn content_hash_is_xxh3() {
    assert_eq!(content_hash(b""), 0x2d06800538d394c2);
    assert_ne!(content_hash(b"a"), content_hash(b"b"));
}

#[test]
fn theme_list_appends_sorted_imports() {
    let builtins = vec![1, 2];
    let ids = vec!["aurora".to_string(), "night".to_string()];
    let imported = vec![
        ("z".to_string(), "zeta".to_string(), 10),
        ("night".to_string(), "Night copy".to_string(), 11),
        ("a".to_string(), "Alpha".to_string(), 12),
        ("b".to_string(), "alpha".to_string(), 13),
    ];
    assert_eq!(list(builtins, &ids, imported), vec![1, 2, 12, 13, 10]);
}
