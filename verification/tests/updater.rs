use aurora::updater::{
    check_beta_phasing, compare_versions, parse_version, progress_text, update_kind, LaunchState,
    ProgressText, UpdateHandler, UpdateKind, UpdaterEvent, CURRENT_BETA_PHASE,
};
use std::cmp::Ordering;

#[test]
fn versions_parse_like_semver_cores() {
    assert_eq!(parse_version(" v1.2.3 "), Some(vec![1, 2, 3]));
    assert_eq!(parse_version("V2.0-beta"), Some(vec![2, 0]));
    assert_eq!(parse_version("3.1+build7"), Some(vec![3, 1]));
    assert_eq!(parse_version("1..2"), None);
    assert_eq!(parse_version("abc"), None);
    assert_eq!(parse_version(""), None);
}

#[test]
fn missing_parts_compare_as_zero() {
    assert_eq!(compare_versions(&[1, 2], &[1, 2, 0]), Ordering::Equal);
    assert_eq!(compare_versions(&[1, 2, 1], &[1, 2]), Ordering::Greater);
    assert_eq!(compare_versions(&[1, 3], &[1, 10]), Ordering::Less);
    assert_eq!(compare_versions(&[], &[]), Ordering::Equal);
}

#[test]
fn update_kinds() {
    assert_eq!(update_kind("1.2.3", "1.2.4"), UpdateKind::Minor);
    assert_eq!(update_kind("1.2.3", "1.3.0"), UpdateKind::Major);
    assert_eq!(update_kind("2.0.0", "1.9.9"), UpdateKind::Downgrade);
    assert_eq!(update_kind("garbage", "1.0.0"), UpdateKind::Major);
    assert_eq!(update_kind("1.2", "1.2.0"), UpdateKind::Minor);
}

#[test]
fn launch_state_codes_round_trip() {
    for s in [LaunchState::Launch, LaunchState::Launching, LaunchState::Running, LaunchState::Updating] {
        assert_eq!(LaunchState::from_code(s.to_code()), Some(s));
    }
    assert_eq!(LaunchState::Running.to_code(), 2);
    assert_eq!(LaunchState::from_code(9), None);
}

#[test]
fn beta_and_progress() {
    assert!(check_beta_phasing(true, CURRENT_BETA_PHASE));
    assert!(!check_beta_phasing(false, CURRENT_BETA_PHASE));
    assert!(!check_beta_phasing(true, CURRENT_BETA_PHASE + 1));
    assert_eq!(progress_text(0, 3), ProgressText::Downloading { number: 1, count: 3 });
    assert_eq!(progress_text(3, 3), ProgressText::Finishing);
}

#[test]
fn lock_then_unlock_restores_the_button() {
    let mut h = UpdateHandler::new();
    assert!(!h.ui_locked());
    assert_eq!(h.lock(LaunchState::Running, true), (LaunchState::Updating, true));
    assert!(h.ui_locked());
    assert_eq!(h.unlock(), (LaunchState::Running, true));
    assert!(!h.ui_locked());
    assert_eq!(h.unlock(), (LaunchState::Launch, false));
    h.lock(LaunchState::Updating, true);
    assert_eq!(h.unlock(), (LaunchState::Launch, false));
}

#[test]
fn one_update_at_a_time_and_one_confirmation() {
    let mut h = UpdateHandler::new();
    assert!(h.try_start());
    assert!(!h.try_start());
    h.finish();
    assert!(h.try_start());
    assert!(!h.on_window_shown());
    h.mark_post_update();
    assert!(h.on_window_shown());
    assert!(!h.on_window_shown());
}

#[test]
fn update_session_steps() {
    let s = UpdateHandler::session_step(&UpdaterEvent::Lock, false);
    assert!(!s.done && s.lock_ui == Some(true) && s.toast.is_none());
    let s = UpdateHandler::session_step(&UpdaterEvent::Progress { file_index: 1, file_count: 3 }, false);
    assert_eq!(s.progress, Some(ProgressText::Downloading { number: 2, count: 3 }));
    let s = UpdateHandler::session_step(&UpdaterEvent::Unlock, true);
    assert!(s.done && s.restart && s.lock_ui.is_none());
    let s = UpdateHandler::session_step(&UpdaterEvent::Unlock, false);
    assert_eq!(s.toast, Some(("Aurora has been updated.".to_string(), "success".to_string())));
    let s = UpdateHandler::session_step(&UpdaterEvent::NoUpdate, true);
    assert!(s.done && s.toast.is_none() && s.lock_ui == Some(false));
    let s = UpdateHandler::session_step(&UpdaterEvent::CloseNow, false);
    assert!(s.done && s.quit);
    let s = UpdateHandler::session_step(&UpdaterEvent::Error { message: "x".to_string() }, false);
    assert!(s.kill_updater && s.abort_reason.is_none());
    let s = UpdateHandler::session_step(&UpdaterEvent::ConnectionFailed { error: "reset".to_string() }, false);
    assert_eq!(s.abort_reason, Some("the updater connection failed: reset".to_string()));
    assert_eq!(s.toast.map(|t| t.1), Some("error".to_string()));
    assert!(s.kill_updater && s.done);
}

#[test]
fn update_checks_and_the_beta_gate() {
    let mut h = UpdateHandler::new();
    assert_eq!(h.begin_check(true), (true, Some(("Checking for updates...", "info"))));
    assert_eq!(h.begin_check(true), (false, Some(("An update check is already running.", "info"))));
    assert_eq!(h.begin_check(false), (false, None));
    assert!(UpdateHandler::beta_gate(Some(true), None));
    assert!(UpdateHandler::beta_gate(None, Some(false)));
    assert!(UpdateHandler::beta_gate(Some(false), Some(true)));
    assert!(!UpdateHandler::beta_gate(Some(false), Some(false)));
    assert!(!UpdateHandler::beta_gate(Some(false), None));
}
