use aurora::modmanager::{
    batch_summary, copy_name, expected_install_failure, fresh_group_name, group_rename, group_siblings,
    group_toggle, is_disabled_mod_file, is_mod_file, is_pak_file, new_group_name, newest_file, outdated,
    rekeyed, tag_for, trimmed_field, with_scheme, EntryKind, Group, Mod, ModManager, ModManagerHandler,
    ModSource, ModTag, RemoteFile, StatusFilter, ToggleError,
};

fn names(v: &[&str]) -> Vec<String> {
    v.iter().map(|s| s.to_string()).collect()
}

#[test]
fn mod_file_names() {
    assert!(is_mod_file("a.pak"));
    assert!(is_mod_file("a.UTOC"));
    assert!(is_mod_file("a.ucas"));
    assert!(!is_mod_file("a.txt"));
    assert!(is_disabled_mod_file("a.pak.disabled"));
    assert!(!is_disabled_mod_file("a.txt.disabled"));
    assert!(is_pak_file("x.PAK"));
    assert!(!is_pak_file("x.pak.disabled"));
}

#[test]
fn switching_off_and_on_renames_back() {
    let on = names(&["m.pak", "m.utoc", "readme.txt"]);
    assert!(ModManager::is_enabled(&on));
    assert!(ModManager::contains_pak(&on));
    let plan = ModManager::toggle_plan(&on).unwrap();
    assert_eq!(plan, vec![(0, "m.pak.disabled".to_string())]);
    let off = names(&["m.pak.disabled", "m.utoc", "readme.txt"]);
    assert!(!ModManager::is_enabled(&off));
    assert_eq!(ModManager::toggle_plan(&off).unwrap(), vec![(0, "m.pak".to_string())]);
    assert_eq!(ModManager::toggle_plan(&names(&["readme.txt"])), Err(ToggleError::NoPak));
}

#[test]
fn folders_are_classified_by_prefix() {
    assert!(matches!(ModManager::classify(".aurora-installing-123"), EntryKind::Staging));
    match ModManager::classify("AU GRP - Outfits") {
        EntryKind::Group(g) => assert_eq!(g, "Outfits"),
        _ => panic!("not a group"),
    }
    assert!(matches!(ModManager::classify("Shinku_P"), EntryKind::Plain));
    assert_eq!(ModManager::base_display_name("Shinku_P"), "Shinku");
    assert_eq!(ModManager::base_display_name("P"), "P");
}

#[test]
fn text_fields_and_links() {
    assert_eq!(with_scheme("gamebanana.com/mods/1"), "https://gamebanana.com/mods/1");
    assert_eq!(with_scheme("http://x"), "http://x");
    assert_eq!(trimmed_field(Some("  a ")), Some("a".to_string()));
    assert_eq!(trimmed_field(Some("   ")), None);
    assert_eq!(trimmed_field(None), None);
    assert_eq!(expected_install_failure("x: a mod with this name already exists"), Some("is already installed"));
    assert_eq!(
        expected_install_failure("Password required for archive"),
        Some("is password protected, so Aurora cannot extract it")
    );
    assert_eq!(expected_install_failure("disk full"), None);
}

#[test]
fn batch_toasts() {
    let none: Vec<String> = vec![];
    assert_eq!(batch_summary("Installed", "Nothing installed", &none, &none), None);
    assert_eq!(
        batch_summary("Installed", "Nothing installed", &names(&["A"]), &none),
        Some(("success".to_string(), "Installed A".to_string()))
    );
    assert_eq!(
        batch_summary("Added", "Nothing added", &names(&["A", "B"]), &names(&["C: bad"])),
        Some(("error".to_string(), "Added 2 mods, 1 failed - C: bad".to_string()))
    );
    assert_eq!(
        batch_summary("Added", "Nothing added", &none, &names(&["x", "y"])),
        Some(("error".to_string(), "Nothing added - x; y".to_string()))
    );
}

#[test]
fn dropped_siblings_join_the_first_of_their_key() {
    let k = |a: &str, b: &str| Some((a.to_string(), b.to_string()));
    let keys = vec![k("d", "m"), None, k("d", "m"), k("d", "n"), k("d", "m")];
    assert_eq!(group_siblings(&keys), vec![vec![0, 2, 4], vec![1], vec![3]]);
}

#[test]
fn updates_are_found_by_id_then_name() {
    let source = ModSource {
        mod_id: 1,
        file_id: 5,
        file_name: "m.zip".to_string(),
        md5: "ABC".to_string(),
        author: String::new(),
        name: String::new(),
    };
    let f = |id: u32, name: &str| RemoteFile { id, name: name.to_string(), md5: String::new() };
    assert_eq!(newest_file(&vec![f(4, "m.zip"), f(5, "x")], &source), Some(1));
    assert_eq!(newest_file(&vec![f(4, "y"), f(6, "m.zip")], &source), Some(1));
    assert_eq!(newest_file(&vec![f(4, "y")], &source), None);
    assert!(!outdated("abc", "ABC"));
    assert!(outdated("abd", "ABC"));
    assert!(!outdated("", "ABC"));
    assert_eq!(tag_for(false, Some(true)), ModTag::Local);
    assert_eq!(tag_for(true, Some(true)), ModTag::UpdateAvailable);
    assert_eq!(tag_for(true, Some(false)), ModTag::UpToDate);
}

#[test]
fn settings_follow_a_moved_mod_and_back() {
    assert_eq!(rekeyed("Mods/a", "Mods/a", "Mods/b", '/'), Some("Mods/b".to_string()));
    assert_eq!(rekeyed("Mods/a/x", "Mods/a", "Mods/b", '/'), Some("Mods/b/x".to_string()));
    assert_eq!(rekeyed("Mods/ab", "Mods/a", "Mods/b", '/'), None);
    let there = rekeyed("G/m", "G", "H", '/').unwrap();
    assert_eq!(rekeyed(&there, "H", "G", '/'), Some("G/m".to_string()));
}

#[test]
fn group_names() {
    assert_eq!(group_rename("  Outfits "), Some("Outfits".to_string()));
    assert_eq!(group_rename("a/b"), None);
    assert_eq!(group_rename("   "), None);
    assert_eq!(new_group_name(" Hair "), Some("Hair".to_string()));
    assert_eq!(new_group_name("x?"), None);
    assert_eq!(fresh_group_name(1), "New Group");
    assert_eq!(fresh_group_name(3), "New Group 3");
    assert_eq!(copy_name("Mod", 1), "Mod");
    assert_eq!(copy_name("Mod", 2), "Mod (2)");
}

#[test]
fn group_switch_leaves_the_group_uniform() {
    assert_eq!(group_toggle(&vec![true, true]), vec![true, true]);
    assert_eq!(group_toggle(&vec![true, false]), vec![false, true]);
    assert_eq!(group_toggle(&vec![]), Vec::<bool>::new());
}

fn a_mod(folder: &str, enabled: bool, author: Option<&str>) -> Mod {
    Mod {
        folder_name: folder.to_string(),
        display_name: folder.to_string(),
        path: format!("/mods/{folder}"),
        version: None,
        author: author.map(|a| a.to_string()),
        support_link: None,
        icon: None,
        image_url: None,
        has_icon_png: false,
        is_enabled: enabled,
        has_json: false,
        source: None,
    }
}

#[test]
fn groups_collect_mods() {
    let mut g = Group::new(Some("G".to_string()), None);
    g.add_mod(a_mod("a", true, None));
    assert_eq!(g.mods.len(), 1);
}

#[test]
fn page_state_selection_restart_and_filters() {
    let mut h = ModManagerHandler::new();
    h.note_toggle("a", true);
    assert!(h.restart_required("a"));
    h.note_toggle("a", true);
    assert!(!h.restart_required("a"));
    h.note_toggle("b", false);
    assert!(!h.restart_required("b"));
    h.note_toggle("c", true);
    assert!(h.game_closed());
    assert!(!h.game_closed());

    assert!(h.toggle_selected("x"));
    assert!(h.is_selected("x"));
    assert_eq!(h.selected_count(), 1);
    let shown = names(&["x", "y"]);
    h.select_all(&shown);
    assert_eq!(h.selected_count(), 2);
    h.select_all(&shown);
    assert_eq!(h.selected_count(), 0);

    assert!(h.toggle_collapsed("g"));
    assert!(h.is_collapsed("g"));

    assert!(!h.filtering());
    h.set_filters(StatusFilter::Enabled, "", &names(&["shinku"]), &names(&["Ann"]));
    assert!(h.filtering());
    assert_eq!(h.active_filter_count(), 3);
    assert!(h.mod_visible(&a_mod("ShinkuDress", true, Some(" Ann ")), "Shinku Dress", false));
    assert!(!h.mod_visible(&a_mod("ShinkuDress", false, Some("Ann")), "Shinku Dress", false));
    assert!(!h.mod_visible(&a_mod("ShinkuDress", true, Some("Bob")), "Shinku Dress", false));
    h.clear_filters();
    assert!(!h.filtering());
    h.set_search("  DRESS ");
    assert!(h.mod_visible(&a_mod("x", true, None), "Summer Dress", false));
    assert!(!h.mod_visible(&a_mod("x", true, None), "Hat", false));
    assert!(h.mod_visible(&a_mod("x", true, None), "Hat", true));
    assert!(h.group_matches("Dresses", false));
    assert!(!h.group_matches("Dresses", true));
    assert!(h.in_filtered_group("anything"));
}

#[test]
fn switching_a_mod_twice_restores_its_files() {
    let original = names(&["a.pak", "a.utoc", "readme.txt", "B.PAK"]);
    let mut files = original.clone();
    for _ in 0..2 {
        for (i, n) in ModManager::toggle_plan(&files).unwrap() {
            files[i] = n;
        }
        if files != original {
            assert_eq!(files, names(&["a.pak.disabled", "a.utoc", "readme.txt", "B.PAK.disabled"]));
        }
    }
    assert_eq!(files, original);
}

#[test]
fn a_stopped_switch_is_rolled_back() {
    let original = names(&["a.pak", "readme.txt", "b.pak", "c.pak"]);
    let plan = ModManager::toggle_plan(&original).unwrap();
    let mut files = original.clone();
    for (i, n) in plan.iter().take(2) {
        files[*i] = n.clone();
    }
    assert_eq!(files, names(&["a.pak.disabled", "readme.txt", "b.pak.disabled", "c.pak"]));
    let undo = ModManager::rollback_plan(&original, &plan, 2);
    assert_eq!(undo, vec![(2, "b.pak".to_string()), (0, "a.pak".to_string())]);
    for (i, n) in undo {
        files[i] = n;
    }
    assert_eq!(files, original);
    assert!(ModManager::rollback_plan(&original, &plan, 0).is_empty());
}
