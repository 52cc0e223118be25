use aurora::lua::{
    format_mods_txt, install_percent, is_blocklisted_name, parse_mods_txt, read_debug_enabled,
    register_mod_in_config, rename_mod_in_config, sanitize_archive_path, sanitize_mod_config_name,
    script_enabled, set_debug_enabled, set_mod_enabled_in_config, unregister_mod_from_config,
    LuaScript, LuaScriptsHandler, ModJsonEntry, TxtEntry,
};

fn txt(name: &str, enabled: bool) -> TxtEntry {
    TxtEntry { name: name.to_string(), enabled }
}

fn json(name: &str, enabled: bool) -> ModJsonEntry {
    ModJsonEntry { mod_name: name.to_string(), mod_enabled: enabled }
}

fn txt_pairs(v: &[TxtEntry]) -> Vec<(String, bool)> {
    v.iter().map(|e| (e.name.clone(), e.enabled)).collect()
}

fn json_pairs(v: &[ModJsonEntry]) -> Vec<(String, bool)> {
    v.iter().map(|e| (e.mod_name.clone(), e.mod_enabled)).collect()
}

#[test]
fn reserved_names_in_any_case() {
    assert!(is_blocklisted_name("shared"));
    assert!(is_blocklisted_name("KeyBinds"));
    assert!(!is_blocklisted_name("my_script"));
    assert_eq!(sanitize_mod_config_name(" my  script\t"), "myscript");
}

#[test]
fn mods_txt_parses_and_formats() {
    let parsed = parse_mods_txt("a : 1\r\n\r\n b:0 \njunk\nshared : 1\n");
    assert_eq!(
        txt_pairs(&parsed),
        vec![("a".to_string(), true), ("b".to_string(), false), ("shared".to_string(), true)]
    );
    let written = format_mods_txt(&vec![txt("shared", true), txt("a", true), txt("b", false)]);
    assert_eq!(written, "a : 1\r\nb : 0\r\nshared : 1");
}

#[test]
fn mods_txt_round_trips() {
    let entries = vec![txt("one", true), txt("two", false)];
    let again = parse_mods_txt(&format_mods_txt(&entries));
    assert_eq!(txt_pairs(&again), txt_pairs(&entries));
}

#[test]
fn config_edits_keep_both_files_in_step() {
    let mut j = vec![json("a", true), json("new script", false)];
    let mut t = vec![txt("a", true)];
    register_mod_in_config(&mut j, &mut t, "new script", true);
    assert_eq!(json_pairs(&j), vec![("a".to_string(), true), ("new script".to_string(), false), ("newscript".to_string(), true)]);
    assert_eq!(txt_pairs(&t), vec![("newscript".to_string(), true), ("a".to_string(), true)]);

    set_mod_enabled_in_config(&mut j, &mut t, "newscript", false);
    assert_eq!(j.last().map(|e| e.mod_enabled), Some(false));
    assert_eq!(t[0].enabled, false);
    set_mod_enabled_in_config(&mut j, &mut t, "other", true);
    assert_eq!(json_pairs(&j).last().cloned(), Some(("other".to_string(), true)));
    assert_eq!(txt_pairs(&t)[0], ("other".to_string(), true));

    rename_mod_in_config(&mut j, &mut t, "a", "b");
    assert_eq!(j[0].mod_name, "b");
    assert!(t.iter().any(|e| e.name == "b"));

    unregister_mod_from_config(&mut j, &mut t, "b");
    assert!(j.iter().all(|e| e.mod_name != "b"));
    assert!(t.iter().all(|e| e.name != "b"));
}

#[test]
fn debug_console_flag() {
    let ini = "[General]\nGuiConsoleEnabled = 1\n[debug]\nGuiConsoleEnabled = 0\nGuiConsoleVisible=0\n";
    assert!(!read_debug_enabled(ini));
    let on = set_debug_enabled(ini, true);
    assert_eq!(on, "[General]\nGuiConsoleEnabled = 1\n[debug]\nGuiConsoleEnabled = 1\nGuiConsoleVisible = 1\n");
    assert!(read_debug_enabled(&on));
    let crlf = set_debug_enabled("[Debug]\r\nGuiConsoleEnabled=1\r\n", false);
    assert_eq!(crlf, "[Debug]\r\nGuiConsoleEnabled = 0\r\n");
}

#[test]
fn archive_paths_stay_inside() {
    assert_eq!(sanitize_archive_path("ue4ss/./Mods//x.lua", false), Some(vec!["ue4ss".to_string(), "Mods".to_string(), "x.lua".to_string()]));
    assert_eq!(sanitize_archive_path("../evil", false), None);
    assert_eq!(sanitize_archive_path("/etc/passwd", false), None);
    assert_eq!(sanitize_archive_path("a/../../b", false), None);
}

#[test]
fn script_state_and_progress() {
    let entries = vec![txt("myscript", true), txt("other", false), txt("myscript", false)];
    assert!(!script_enabled(&entries, "my script"));
    assert!(script_enabled(&vec![txt("myscript", true)], "my script"));
    assert!(!script_enabled(&entries, "missing"));
    assert_eq!(install_percent(1, 2), 75);
    assert_eq!(install_percent(4, 4), 100);
    assert_eq!(install_percent(1, 3), 66);
}

fn script(id: u32, name: &str) -> LuaScript {
    LuaScript { id, name: name.to_string(), enabled: false, code: String::new() }
}

#[test]
fn scripts_page_creates_renames_and_deletes() {
    let mut h = LuaScriptsHandler::load(vec![script(3, "a"), script(1, "b")]);
    assert_eq!(h.create(), "lua_script_4");
    assert_eq!(h.toggle(4), Some(("lua_script_4".to_string(), true)));
    assert_eq!(h.toggle(99), None);
    assert_eq!(h.rename(1, "shared"), Err("\"shared\" is a reserved name and can't be used.".to_string()));
    assert_eq!(h.rename(1, "c"), Ok(Some("b".to_string())));
    assert_eq!(h.rename(42, "c"), Ok(None));
    assert_eq!(h.save_code(3, "print(1)".to_string()), Some("a".to_string()));
    assert_eq!(h.delete(3), Some("a".to_string()));
    assert_eq!(h.delete(3), None);
}

#[test]
fn registered_script_reads_back_its_state() {
    let mut j = vec![json("my script", true)];
    let mut t = vec![txt("myscript", true), txt("x", false), txt("myscript", true)];
    register_mod_in_config(&mut j, &mut t, "my script", false);
    assert!(!script_enabled(&t, "my script"));
    register_mod_in_config(&mut j, &mut t, "my script", true);
    assert!(script_enabled(&t, "my script"));
    unregister_mod_from_config(&mut j, &mut t, "my script");
    assert!(!script_enabled(&t, "my script"));
    assert!(!script_enabled(&t, "x"));
}

#[test]
fn debug_switch_reads_back() {
    let ini = "[debug]\r\n  guiconsoleenabled=0 \r\n[Other]\r\nGuiConsoleEnabled = 1";
    assert!(read_debug_enabled(&set_debug_enabled(ini, true)));
    assert!(!read_debug_enabled(&set_debug_enabled(ini, false)));
    let without_key = "[Debug]\nGuiConsoleVisible = 0\n";
    assert!(!read_debug_enabled(&set_debug_enabled(without_key, true)));
    assert_eq!(set_debug_enabled(without_key, true), "[Debug]\nGuiConsoleVisible = 1\n");
}

#[test]
fn archive_paths_read_windows_separators() {
    assert_eq!(sanitize_archive_path("..\\x", true), None);
    assert_eq!(sanitize_archive_path("a\\..\\b", true), None);
    assert_eq!(sanitize_archive_path("C:\\x", true), None);
    assert_eq!(sanitize_archive_path("c:x", true), None);
    assert_eq!(sanitize_archive_path("\\\\server\\share\\x", true), None);
    assert_eq!(sanitize_archive_path("\\x", true), None);
    assert_eq!(
        sanitize_archive_path("Mods\\.\\a\\main.lua", true),
        Some(vec!["Mods".to_string(), "a".to_string(), "main.lua".to_string()])
    );
}

#[test]
fn archive_paths_elsewhere_keep_backslashes_in_names() {
    assert_eq!(sanitize_archive_path("a\\b", false), Some(vec!["a\\b".to_string()]));
    assert_eq!(sanitize_archive_path("C:x", false), Some(vec!["C:x".to_string()]));
    assert_eq!(sanitize_archive_path("..\\x", false), Some(vec!["..\\x".to_string()]));
    assert_eq!(sanitize_archive_path("C:x", true), None);
    assert_eq!(sanitize_archive_path("a\\b", true), Some(vec!["a".to_string(), "b".to_string()]));
    assert_eq!(sanitize_archive_path("Mods/./a/main.lua", false), Some(vec!["Mods".to_string(), "a".to_string(), "main.lua".to_string()]));
}
