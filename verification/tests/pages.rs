use aurora::bridge::{Bridge, EngineEvent};
use aurora::handlers::{
    ButtonHandler, CancelAction, ConfirmAction, IconAction, MenuAction, PopupHandler, RepairHandler, RepairStep,
    ThemeHandler, ToastHandler, migration_outcome,
};
use aurora::modules::{default_name, install_summary, module_entry, toggle_target, Module, ModulesHandler};
use aurora::settings::{Follow, SettingsHandler, Switch};
use aurora::updater::LaunchState;

fn strings(v: &[&str]) -> Vec<String> {
    v.iter().map(|s| s.to_string()).collect()
}

#[test]
fn module_files() {
    assert_eq!(module_entry("a.asi"), Some(("a.asi".to_string(), true)));
    assert_eq!(module_entry("b.DLL.disabled"), Some(("b.DLL".to_string(), false)));
    assert_eq!(module_entry("c.txt"), None);
    assert_eq!(default_name("mod.v2.asi"), "mod.v2");
    assert_eq!(default_name(".hidden"), ".hidden");
    assert_eq!(toggle_target("a.asi", true), "a.asi.disabled");
    assert_eq!(toggle_target("a.asi", false), "a.asi");
    assert_eq!(install_summary(&strings(&["a"]), &vec![]), Some(("success".to_string(), "Installed a".to_string())));
    assert_eq!(
        install_summary(&strings(&["a", "b"]), &vec![]),
        Some(("success".to_string(), "Installed 2 modules".to_string()))
    );
    assert_eq!(
        install_summary(&strings(&["a"]), &strings(&["x: no", "y"])),
        Some(("error".to_string(), "Install failed - x: no".to_string()))
    );
    assert_eq!(install_summary(&vec![], &vec![]), None);
}

fn module(id: &str, enabled: bool) -> Module {
    Module { id: id.to_string(), path: format!("/m/{id}"), enabled }
}

#[test]
fn modules_page_selection() {
    let mut h = ModulesHandler::new();
    h.set_scanned(vec![module("a.asi", true), module("b.dll", false), module("c.asi", true)]);
    h.set_search(" B ");
    assert!(h.matches("Bee", "x"));
    assert!(h.matches("x", "b.dll"));
    assert!(!h.matches("a", "a.asi"));
    h.show(strings(&["a.asi", "b.dll"]));
    assert!(!h.all_selected());
    h.select_all();
    assert!(h.all_selected());
    assert_eq!(h.selected_count(), 2);
    assert_eq!(
        h.selected_modules(),
        vec![
            ("a.asi".to_string(), "/m/a.asi".to_string(), true),
            ("b.dll".to_string(), "/m/b.dll".to_string(), false)
        ]
    );
    h.select_all();
    assert_eq!(h.selected_count(), 0);
    assert!(h.toggle_selected("c.asi"));
    h.set_scanned(vec![module("a.asi", true)]);
    h.show(strings(&["a.asi"]));
    assert_eq!(h.selected_count(), 0);
    h.clear_selection();
    assert_eq!(h.enabled_paths(), strings(&["/m/a.asi"]));
}

#[test]
fn buttons_popups_and_repairs() {
    assert_eq!(ButtonHandler::launch_menu_action(0), Some(MenuAction::RepairAurora));
    assert_eq!(ButtonHandler::launch_menu_action(3), None);
    assert_eq!(ButtonHandler::launch_menu_action(5), Some(MenuAction::KillGame));
    assert_eq!(ButtonHandler::bottom_icon_action(1), Some(IconAction::ToggleModManager));
    assert_eq!(ButtonHandler::bottom_icon_action(2), None);
    let boxes = ButtonHandler::repair_checkboxes();
    assert_eq!(boxes.len(), 3);
    assert!(!boxes[1].checked);
    assert_eq!(PopupHandler::confirm_action("update-popup"), Some(ConfirmAction::StartUpdate));
    assert_eq!(PopupHandler::confirm_action("nope"), None);
    assert_eq!(PopupHandler::cancel_action("screenshot-delete"), Some(CancelAction::KeepScreenshots));
    assert_eq!(PopupHandler::cancel_action("update-popup"), None);
    assert_eq!(
        RepairHandler::plan(true, true, true),
        vec![RepairStep::KillProcesses, RepairStep::Validate, RepairStep::Sanitize, RepairStep::CleanCache]
    );
    assert_eq!(RepairHandler::plan(false, false, false), vec![RepairStep::KillProcesses]);
    let mut t = ToastHandler::new();
    t.show("hi", "info");
    t.trigger();
    t.dismiss();
}

#[test]
fn themes_are_selected_by_saved_choice() {
    let mut h = ThemeHandler::new();
    assert_eq!(h.reload(strings(&["a", "b"]), "b"), None);
    assert_eq!(h.reload(strings(&["a", "b"]), "gone"), Some("a".to_string()));
    assert_eq!(h.reload(vec![], "a"), None);
    h.reload(strings(&["a", "b"]), "a");
    assert_eq!(h.pick("b"), Some(1));
    assert_eq!(h.pick("z"), None);
    assert!(ThemeHandler::delete_resets(Some("a"), "a"));
    assert!(!ThemeHandler::delete_resets(None, "a"));
    let (saved, ok, failed) = ThemeHandler::import_outcome(&strings(&["x", "y"]), 1);
    assert_eq!(saved, Some("y".to_string()));
    assert!(ok && failed);
}

#[test]
fn settings_switches() {
    assert_eq!(SettingsHandler::toggled(1), Some((Switch::DiscordRpc, Follow::DiscordPresence)));
    assert_eq!(SettingsHandler::toggled(8), Some((Switch::CustomAddons, Follow::Nothing)));
    assert_eq!(SettingsHandler::toggled(0), None);
    assert!(SettingsHandler::flipped(None));
    assert!(!SettingsHandler::flipped(Some(true)));
}

#[test]
fn quick_start_ends_at_the_first_decisive_event() {
    assert_eq!(Bridge::quick_start(&vec![EngineEvent::EngineReady, EngineEvent::GameClosed]), Ok(()));
    assert_eq!(
        Bridge::quick_start(&vec![EngineEvent::LaunchFailed("no exe".to_string()), EngineEvent::GameClosed]),
        Err("Quick start launch failed: no exe".to_string())
    );
    assert_eq!(
        Bridge::quick_start(&vec![EngineEvent::EngineInitFailed("x".to_string())]),
        Err("Quick start failed: engine could not initialise: x".to_string())
    );
    assert_eq!(
        Bridge::quick_start(&vec![EngineEvent::EngineReady]),
        Err("engine event channel closed unexpectedly".to_string())
    );
}

#[test]
fn custom_addons_only_when_switched_on() {
    let listed = vec![Some("a.pak".to_string()), None, Some("b.pak".to_string())];
    assert_eq!(Bridge::custom_addon_files(true, &listed), Some(strings(&["a.pak", "b.pak"])));
    assert_eq!(Bridge::custom_addon_files(false, &listed), None);
    assert_eq!(Bridge::custom_addon_files(true, &vec![None]), None);
}

#[test]
fn engine_events_are_answered() {
    let r = Bridge::react(&EngineEvent::GameClosed, false, None, "Opened", true);
    assert_eq!(r.toast, Some(("Game closed.".to_string(), "success".to_string())));
    assert_eq!(r.launch_state, Some(LaunchState::Launch));
    assert!(r.enable_launch && r.game_closed);
    let r = Bridge::react(&EngineEvent::GameClosed, true, None, "Opened", true);
    assert_eq!(r.launch_state, None);
    assert!(!r.enable_launch);
    let r = Bridge::react(&EngineEvent::LaunchSuccess, false, None, "Opened", true);
    assert_eq!(r.toast, Some(("Opened".to_string(), "success".to_string())));
    assert_eq!(r.launch_state, Some(LaunchState::Running));
    assert!(r.to_tray);
    let r = Bridge::react(&EngineEvent::ValidationResult(strings(&["a", "b"])), false, None, "", false);
    assert_eq!(r.toast, Some(("Missing required files:\na\nb".to_string(), "error".to_string())));
    let r = Bridge::react(&EngineEvent::EngineInitFailed("bad".to_string()), false, Some("Set your path".to_string()), "", false);
    assert_eq!(r.toast, Some(("Set your path".to_string(), "warning".to_string())));
    let r = Bridge::react(&EngineEvent::EverlightTimeout, false, None, "", false);
    assert_eq!(r.popup.map(|p| p.0), Some("everlight-timeout".to_string()));
    let r = Bridge::react(&EngineEvent::GamePathUpdated("/g".to_string()), false, None, "", false);
    assert_eq!(r.game_directory, Some("/g".to_string()));
}

#[test]
fn legacy_migration_messages() {
    let ok = migration_outcome(Ok((3, 0)));
    assert_eq!((ok.text.as_str(), ok.kind, ok.rescan), ("Migrated 3 mod(s).", "success", true));
    let partial = migration_outcome(Ok((2, 1)));
    assert_eq!((partial.text.as_str(), partial.kind, partial.rescan), ("Migrated 2 mod(s), 1 could not be moved.", "error", true));
    let none = migration_outcome(Ok((0, 0)));
    assert!(!none.rescan);
    let failed = migration_outcome(Err("disk full".to_string()));
    assert_eq!((failed.text.as_str(), failed.kind, failed.rescan), ("Migration failed - disk full", "error", false));
}
