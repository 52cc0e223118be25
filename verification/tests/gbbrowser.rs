use aurora::gbbrowser::{
    character_mode, characters, hex_string, search_mode, AfterFailure, Download, GbBrowserHandler, GbEntry,
    DownloadEnd, EndAction, InstallGate, Mode, ModeChange, Preview, DOWNLOAD_ATTEMPTS, PAGE_SIZE, THUMB_KEEP_ENTRIES,
};

fn entry(id: u32, nsfw: bool, thumb: Option<u8>) -> GbEntry<u8> {
    GbEntry {
        id,
        name: format!("mod {id}"),
        author: "a".to_string(),
        view_count: 0,
        download_count: 0,
        like_count: 0,
        is_nsfw: nsfw,
        mod_url: String::new(),
        preview_urls: vec![],
        thumb,
    }
}

#[test]
fn search_text_picks_the_mode() {
    assert!(matches!(search_mode("   "), Mode::Feed));
    assert!(matches!(search_mode(" ab "), Mode::Partial(q) if q == "ab"));
    assert!(matches!(search_mode(" abc "), Mode::Search(q) if q == "abc"));
    assert!(matches!(search_mode("日本"), Mode::Search(q) if q == "日本"));
    assert!(matches!(character_mode(0), Mode::Category(43034)));
    assert!(matches!(character_mode(-1), Mode::Feed));
    assert!(matches!(character_mode(characters().len() as i32), Mode::Feed));
    assert_eq!(characters().len(), 23);
}

#[test]
fn stale_answers_are_dropped_and_ids_are_unique() {
    let mut b: GbBrowserHandler<u8> = GbBrowserHandler::new();
    let (generation, mode, page) = b.begin_load(true).unwrap();
    assert!(matches!(mode, Mode::Feed));
    assert_eq!(page, 1);
    assert!(b.begin_load(false).is_none());
    assert_eq!(b.receive(generation, entry(1, false, Some(1))), Some(vec![]));
    assert_eq!(b.receive(generation, entry(1, false, Some(1))), None);
    assert_eq!(b.receive(generation + 1, entry(2, false, None)), None);
    assert_eq!(b.receive(generation, entry(3, true, None)), Some(vec![]));
    b.finish_load(generation, 1, true, Some(2));
    assert_eq!(b.visible(true), vec![0, 1]);
    assert_eq!(b.visible(false), vec![0]);
    assert_eq!(b.entry(3).map(|e| e.id), Some(3));
    assert!(b.entry(2).is_none());
    assert!(b.restore_thumb(generation, 3, 9));
    assert!(!b.restore_thumb(generation, 3, 9));
    assert!(!b.restore_thumb(generation + 1, 1, 9));
    let next = b.begin_load(false).unwrap();
    assert_eq!(next.2, 2);
    b.finish_load(next.0, 2, false, Some(0));
    assert!(b.begin_load(false).is_none());
}

#[test]
fn old_thumbnails_are_dropped() {
    let mut b: GbBrowserHandler<u8> = GbBrowserHandler::new();
    let (generation, _, _) = b.begin_load(true).unwrap();
    let mut dropped = vec![];
    for id in 0..(THUMB_KEEP_ENTRIES as u32 + 2) {
        dropped.extend(b.receive(generation, entry(id, false, Some(1))).unwrap());
    }
    assert_eq!(dropped, vec![0, 1]);
    assert!(b.entry(0).unwrap().thumb.is_none());
    assert!(b.entry(2).unwrap().thumb.is_some());
}

#[test]
fn modes_switch_and_short_searches_clear() {
    let mut b: GbBrowserHandler<u8> = GbBrowserHandler::new();
    assert_eq!(b.set_mode(Mode::Feed), ModeChange::Unchanged);
    assert_eq!(b.set_mode(Mode::Partial("ab".to_string())), ModeChange::Cleared);
    assert!(b.begin_load(false).is_none());
    assert_eq!(b.set_mode(Mode::Search("abc".to_string())), ModeChange::Reload);
    let (g, mode, _) = b.begin_load(true).unwrap();
    assert!(matches!(mode, Mode::Search(q) if q == "abc"));
    b.finish_load(g, 1, true, Some(PAGE_SIZE - 1));
    assert!(b.begin_load(false).is_none());
    b.close();
    assert!(b.begin_load(false).is_some());
}

#[test]
fn failed_pages_are_asked_again() {
    let mut b: GbBrowserHandler<u8> = GbBrowserHandler::new();
    let (g, _, _) = b.begin_load(true).unwrap();
    b.finish_load(g, 1, true, Some(3));
    let (g, _, p) = b.begin_load(false).unwrap();
    assert_eq!(p, 2);
    b.finish_load(g, 2, false, None);
    let (_, _, p) = b.begin_load(false).unwrap();
    assert_eq!(p, 2);
}

#[test]
fn preview_keeps_the_neighbours() {
    let mut p: Preview<u8> = Preview::open(7, vec!["a".to_string(), "b".to_string(), "c".to_string(), "d".to_string()]);
    assert_eq!(p.mod_id(), 7);
    assert_eq!(p.url(3), Some("d".to_string()));
    assert_eq!(p.url(4), None);
    p.store(0, 10);
    p.store(3, 13);
    assert_eq!(p.cached(0), Some(&10));
    assert_eq!(p.cached(3), None);
    assert!(p.navigate(2));
    assert!(!p.navigate(2));
    assert!(!p.navigate(9));
    p.store(2, 12);
    assert_eq!(p.cached(2), Some(&12));
    assert_eq!(p.cached(0), None);
}

#[test]
fn install_gate_runs_one_at_a_time() {
    let mut g = InstallGate::new();
    assert!(!g.in_progress(false));
    assert!(g.in_progress(true));
    assert!(!g.try_start(true));
    assert!(g.try_start(false));
    assert!(!g.try_start(false));
    assert!(g.cancel());
    assert!(g.cancelled());
    assert!(!g.commit());
    g.finish();
    assert!(g.try_start(false));
    assert!(g.commit());
    assert!(!g.cancel());
    g.finish();
    assert!(!g.in_progress(false));
}

#[test]
fn downloads_resume_retry_and_check() {
    assert_eq!(hex_string(&[0x0f, 0xa0]), "0fa0");
    let mut d = Download::new(10);
    assert_eq!(d.resume_from(), None);
    assert!(!d.on_response(false, Some(10)));
    assert_eq!(d.feed(b"hello"), Some(50));
    assert_eq!(d.feed(b""), None);
    assert_eq!(d.resume_from(), Some(5));
    assert_eq!(d.after_failure(false), AfterFailure::Retry(2));
    assert!(d.on_response(true, Some(5)));
    assert_eq!(d.feed(b"world"), Some(100));
    assert!(d.check("FC5E038D38A57032085441E7FE7010B0").is_ok());

    let mut e = Download::new(5);
    e.feed(b"hello");
    assert!(!e.on_response(false, None));
    e.feed(b"hello");
    assert_eq!(e.check("5d41402abc4b2a76b9719d911017c592").ok(), Some(5));
}

#[test]
fn checksum_mismatch_is_refused() {
    let mut d = Download::new(5);
    d.feed(b"hello");
    match d.check("00000000000000000000000000000000") {
        Err(m) => {
            assert_eq!(m.got, "5d41402abc4b2a76b9719d911017c592");
            assert_eq!(m.expected, "00000000000000000000000000000000");
        }
        Ok(_) => panic!("accepted a wrong checksum"),
    }
    let mut n = Download::new(5);
    n.feed(b"x");
    assert_eq!(n.check("").ok(), Some(1));
}

#[test]
fn tries_are_limited() {
    let mut d = Download::new(1);
    for attempt in 1..DOWNLOAD_ATTEMPTS {
        assert_eq!(d.after_failure(false), AfterFailure::Retry(2 * attempt as u64));
    }
    assert_eq!(d.after_failure(false), AfterFailure::GiveUp);
    assert_eq!(d.after_failure(true), AfterFailure::Cancelled);
}

#[test]
fn a_refused_download_frees_the_slot_and_says_why() {
    let mut d = Download::new(5);
    d.feed(b"hello");
    let reason = match d.check("00000000000000000000000000000000") {
        Err(m) => m.reason("mod.zip"),
        Ok(_) => panic!("accepted a wrong checksum"),
    };
    assert_eq!(
        reason,
        "checksum mismatch for 'mod.zip' (expected 00000000000000000000000000000000, got 5d41402abc4b2a76b9719d911017c592)"
    );
    let mut g = InstallGate::new();
    assert!(g.try_start(false));
    match g.download_ended(DownloadEnd::Failed { reason }) {
        EndAction::Refused { toast } => assert!(toast.starts_with("Download failed - checksum mismatch for 'mod.zip'")),
        _ => panic!("not refused"),
    }
    assert!(!g.in_progress(false));
    assert!(g.try_start(false));
    assert!(matches!(g.download_ended(DownloadEnd::Fetched), EndAction::Install));
    let mut c = InstallGate::new();
    c.try_start(false);
    c.cancel();
    assert!(matches!(c.download_ended(DownloadEnd::Fetched), EndAction::Discard));
    assert!(matches!(c.download_ended(DownloadEnd::Cancelled), EndAction::Finished));
}
