use aurora::desktop_entry::{entry_contents, entry_relative_path, icon_relative_path, needs_write, quote_exec};
use aurora::iconpack::{display_name as pack_name, pack_exists, resolve_pack, IconPackHandler};
use aurora::idset::IdSet;
use aurora::logwindow::{level_index, passes, single_line, Level};
use aurora::settings_page::{proton_index, Language, SettingsHandler};
use aurora::translations::{build_values, tr, tr_args, TrEntry};

#[test]
fn exec_paths_are_quoted() {
    assert_eq!(quote_exec("/opt/aurora"), "\"/opt/aurora\"");
    assert_eq!(quote_exec("a\\b\"c"), "\"a\\\\b\\\"c\"");
    let entry = entry_contents("/x y/aurora");
    assert!(entry.starts_with("[Desktop Entry]\n"));
    assert!(entry.contains("\nExec=\"/x y/aurora\"\n"));
    assert!(entry.ends_with("StartupWMClass=aurora\n"));
    assert_eq!(icon_relative_path(), "icons/hicolor/64x64/apps/aurora.png");
    assert_eq!(entry_relative_path(), "applications/aurora.desktop");
}

#[test]
fn files_are_written_only_when_they_differ() {
    assert!(needs_write(None, b"x"));
    assert!(needs_write(Some(b"y"), b"x"));
    assert!(needs_write(Some(b"xy"), b"x"));
    assert!(!needs_write(Some(b"x"), b"x"));
}

#[test]
fn log_filter_shows_all_or_one_level() {
    assert_eq!(level_index(Level::Error), 1);
    assert_eq!(level_index(Level::Trace), 5);
    assert!(passes(0, Level::Debug));
    assert!(passes(2, Level::Warn));
    assert!(!passes(2, Level::Info));
    assert_eq!(single_line("a\nb\tc\r"), "a b c ");
}

fn entry(key: &str, values: &[(&str, &str)]) -> TrEntry {
    TrEntry {
        key: key.to_string(),
        values: values.iter().map(|(l, t)| (l.to_string(), t.to_string())).collect(),
    }
}

#[test]
fn translations_fall_back_to_english_and_to_the_key() {
    let table = vec![
        entry("hello", &[("en", "Hello"), ("de", "Hallo"), ("fr", "")]),
        entry("count", &[("en", "{0} of {1}"), ("de", "{1}: {0}")]),
    ];
    assert_eq!(tr(&table, "de", "hello"), "Hallo");
    assert_eq!(tr(&table, "fr", "hello"), "Hello");
    assert_eq!(tr(&table, "jp", "hello"), "Hello");
    assert_eq!(tr(&table, "de", "missing"), "missing");
    assert_eq!(tr_args(&table, "en", "count", &["3", "9"]), "3 of 9");
    assert_eq!(tr_args(&table, "de", "count", &["3", "9"]), "9: 3");
    assert_eq!(build_values(&table, "de"), vec!["Hallo".to_string(), "{1}: {0}".to_string()]);
}

fn languages() -> SettingsHandler {
    SettingsHandler::new(vec![
        Language { name: "English".to_string(), code: "en".to_string() },
        Language { name: "Deutsch".to_string(), code: "de".to_string() },
    ])
}

#[test]
fn language_codes_and_indices_round_trip() {
    let s = languages();
    assert_eq!(s.index_to_code(1), "de");
    assert_eq!(s.index_to_code(-4), "en");
    assert_eq!(s.index_to_code(7), "en");
    assert_eq!(s.code_to_index("de"), Some(1));
    assert_eq!(s.code_to_index("xx"), None);
    for code in ["en", "de"] {
        let i = s.code_to_index(code).unwrap();
        assert_eq!(s.index_to_code(i), code);
    }
}

#[test]
fn proton_combo_index() {
    let builds = vec!["GE-1".to_string(), "GE-2".to_string()];
    let customs = vec!["mine".to_string()];
    assert_eq!(proton_index(&builds, &customs, "", ""), 0);
    assert_eq!(proton_index(&builds, &customs, "", "GE-2"), 2);
    assert_eq!(proton_index(&builds, &customs, "mine", "GE-2"), 3);
    assert_eq!(proton_index(&builds, &customs, "gone", "GE-2"), 0);
    assert_eq!(proton_index(&builds, &customs, "", "gone"), 0);
    assert_eq!(proton_index(&builds, &customs, "  ", " GE-2 "), 2);
    assert_eq!(proton_index(&builds, &customs, " mine ", ""), 3);
}

#[test]
fn icon_packs_resolve_to_installed_ones() {
    let packs = vec!["default".to_string(), "neon".to_string()];
    assert!(pack_exists(&packs, "neon"));
    assert!(!pack_exists(&packs, "gone"));
    assert_eq!(resolve_pack(&packs, "neon"), "neon");
    assert_eq!(resolve_pack(&packs, "gone"), "default");
    let mut h = IconPackHandler::new(packs);
    assert_eq!(h.active(), "");
    assert_eq!(h.apply("neon"), "neon");
    assert_eq!(h.active(), "neon");
    assert_eq!(h.apply_from_theme(None), None);
    assert_eq!(h.active(), "neon");
    assert!(!pack_name("neon").is_empty());
}

#[test]
fn toggling_an_id_twice_restores_the_set() {
    let mut s = IdSet::new();
    assert!(s.insert("a"));
    assert!(!s.insert("a"));
    assert_eq!(s.len(), 1);
    assert!(s.toggle("b"));
    assert!(s.contains("b"));
    assert!(!s.toggle("b"));
    assert!(!s.contains("b"));
    assert_eq!(s.len(), 1);
    assert!(s.remove("a"));
    assert!(!s.remove("a"));
    let t = IdSet::from_ids(&vec!["x".to_string(), "x".to_string(), "y".to_string()]);
    assert_eq!(t.len(), 2);
}

#[test]
fn proton_entries_and_choices() {
    assert_eq!(SettingsHandler::proton_build_name("/opt/proton/GE-Proton9/"), "GE-Proton9");
    assert_eq!(SettingsHandler::proton_build_name("/opt/proton/./"), "proton");
    assert_eq!(SettingsHandler::proton_build_name("/opt/.."), "/opt/..");
    assert_eq!(SettingsHandler::proton_build_name("/"), "/");
    let builds = vec!["dw-1".to_string(), "dw-2".to_string()];
    let customs = vec!["/x/GE-9".to_string()];
    let names = SettingsHandler::proton_names(&builds, &customs);
    assert_eq!(names, vec!["dw-1".to_string(), "dw-2".to_string(), "GE-9".to_string()]);

    let auto = SettingsHandler::proton_choice(0, &names, 3, &customs);
    assert_eq!((auto.custom_path.as_str(), auto.version.as_str(), auto.shown_name.as_str()), ("", "", ""));
    let build = SettingsHandler::proton_choice(2, &names, 3, &customs);
    assert_eq!((build.custom_path.as_str(), build.version.as_str(), build.shown_name.as_str()), ("", "dw-2", "dw-2"));
    let custom = SettingsHandler::proton_choice(3, &names, 3, &customs);
    assert_eq!((custom.custom_path.as_str(), custom.version.as_str(), custom.shown_name.as_str()), ("/x/GE-9", "", "GE-9"));

    assert_eq!(SettingsHandler::proton_removal(3, 3, &customs, "/x/GE-9"), Some((0, true)));
    assert_eq!(SettingsHandler::proton_removal(3, 3, &customs, ""), Some((0, false)));
    assert_eq!(SettingsHandler::proton_removal(1, 3, &customs, ""), None);
    assert_eq!(SettingsHandler::proton_removal(4, 3, &customs, ""), None);
}
