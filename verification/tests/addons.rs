use aurora::addons::{
    clean_etag, combined_md5, config_key, delete_message, direct_file, is_toggle, keep_on_delete, link_mod_id,
    parse_auadd, status, switch_plan, switch_values, AddonData, AddonsHandler,
};

fn data(md5: &str) -> AddonData {
    AddonData::new("f".to_string(), "u".to_string(), md5.to_string())
}

fn strings(v: &[&str]) -> Vec<String> {
    v.iter().map(|s| s.to_string()).collect()
}

#[test]
fn known_addons_have_switches() {
    assert_eq!(config_key("Hide UID"), Some("uid_rem"));
    assert_eq!(config_key("Collectible Highlighter"), Some("collectibles"));
    assert_eq!(config_key("hide uid"), None);
}

#[test]
fn auadd_files_are_read_line_by_line() {
    let info = parse_auadd("NAME| Hide UID \nAUTHOR|me\nFILE|a.pak\nbad line\nFILE | b.pak\nIMAGE|http://i\nOTHER|x\n");
    assert_eq!(info.name, "Hide UID");
    assert_eq!(info.author, "me");
    assert_eq!(info.files, strings(&["a.pak", "b.pak"]));
    assert_eq!(info.image_url, "http://i");
    assert_eq!(info.version, "");
}

#[test]
fn checksums_combine_only_when_all_are_known() {
    assert_eq!(combined_md5(&vec![data(" a "), data("b")]), "a,b");
    assert_eq!(combined_md5(&vec![data("a"), data("  ")]), "");
    assert_eq!(combined_md5(&vec![]), "");
}

#[test]
fn direct_links_and_etags() {
    assert_eq!(clean_etag("W/\"abc\""), "abc");
    assert_eq!(clean_etag("abc"), "abc");
    let f = direct_file("https://host/dir/file.pak?x=1#frag", "\"tag\"");
    assert_eq!(f.file_name, "file.pak");
    assert_eq!(f.url, "https://host/dir/file.pak?x=1#frag");
    assert_eq!(f.md5, "tag");
    assert_eq!(link_mod_id("https://gamebanana.com/mods/12345"), 12345);
    assert_eq!(link_mod_id("https://gamebanana.com/mods/"), 0);
}

#[test]
fn status_of_the_payload() {
    let s = status(&strings(&["a.pak", "b.pak"]), " h1 ", "h1");
    assert!(s.installed && s.enabled && !s.update_available);
    let s = status(&strings(&["a.pak.disabled"]), "h1", "h2");
    assert!(s.installed && !s.enabled && s.update_available);
    let s = status(&vec![], "", "h2");
    assert!(!s.installed && !s.enabled && !s.update_available);
    assert!(is_toggle(true, false));
    assert!(!is_toggle(true, true));
}

#[test]
fn switching_and_deleting() {
    let paths = strings(&["a.pak", "b.pak.disabled"]);
    assert_eq!(switch_plan(&paths, false), vec![(0, "a.pak.disabled".to_string())]);
    assert_eq!(switch_plan(&paths, true), vec![(1, "b.pak".to_string())]);
    assert!(keep_on_delete("Hide UID.AUADD"));
    assert!(!keep_on_delete("a.pak"));
    let values = switch_values(&vec![("uid_rem", true), ("col_tim", true), ("uid_rem", false)]);
    assert_eq!(values.len(), 6);
    assert!(values.contains(&("uid_rem", false)));
    assert!(values.contains(&("col_tim", true)));
    assert!(values.contains(&("drv_lin", false)));
    let mut h = AddonsHandler::new();
    assert!(!h.request_delete(2, false, false));
    assert!(!h.request_delete(2, true, true));
    assert!(h.request_delete(2, true, false));
    assert_eq!(h.confirm_delete(), Some(2));
    assert_eq!(h.confirm_delete(), None);
    assert_eq!(
        delete_message("X"),
        "\"X\" will be uninstalled and its files permanently deleted. You can install it again later."
    );
}

#[test]
fn switching_off_and_on_restores_the_paths() {
    let original = vec!["x/a.pak".to_string(), "x/b.utoc".to_string()];
    let mut paths = original.clone();
    for (i, p) in switch_plan(&paths, false) {
        paths[i] = p;
    }
    assert_eq!(paths, vec!["x/a.pak.disabled".to_string(), "x/b.utoc.disabled".to_string()]);
    for (i, p) in switch_plan(&paths, true) {
        paths[i] = p;
    }
    assert_eq!(paths, original);
    assert!(switch_plan(&paths, true).is_empty());
}

#[test]
fn cached_images_are_named_by_hash_and_extension() {
    assert_eq!(AddonsHandler::cache_filename_for(0x1234, "https://x.test/a.png"), "0000000000001234.png");
    assert_eq!(AddonsHandler::cache_filename_for(u64::MAX, "https://x.test/a.we-bp"), "ffffffffffffffff.img");
    assert_eq!(AddonsHandler::cache_filename_for(0xabc, "https://x.test/a.jpegxx"), "0000000000000abc.img");
    assert_eq!(AddonsHandler::cache_filename_for(1, "abc"), "0000000000000001.abc");
    let url = "https://x.test/pic.webp";
    let mut hasher = std::collections::hash_map::DefaultHasher::new();
    std::hash::Hash::hash(url, &mut hasher);
    let expected = format!("{:016x}.webp", std::hash::Hasher::finish(&hasher));
    assert_eq!(AddonsHandler::cache_filename(url), expected);
}
