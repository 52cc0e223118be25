use aurora::modmanager::{mod_data, scanned_groups, Group, JsonField, ModJson, ModSource};

fn files(v: &[&str]) -> Vec<String> {
    v.iter().map(|s| s.to_string()).collect()
}

fn source(author: &str) -> ModSource {
    ModSource {
        mod_id: 1,
        file_id: 2,
        file_name: "f.zip".to_string(),
        md5: String::new(),
        author: author.to_string(),
        name: String::new(),
    }
}

#[test]
fn folders_without_mod_json_use_the_folder() {
    let m = mod_data("Shinku_P", "/mods/Shinku_P", &files(&["a.pak.disabled"]), true, Some(source("Ann")), None);
    assert_eq!(m.display_name, "Shinku");
    assert!(!m.is_enabled);
    assert!(!m.has_json);
    assert_eq!(m.version, Some("Unknown".to_string()));
    assert_eq!(m.author, Some("Ann".to_string()));
    assert!(m.has_icon_png);
    let m = mod_data("X", "/mods/X", &files(&["a.pak"]), false, Some(source("")), None);
    assert_eq!(m.author, Some("Unknown".to_string()));
    let m = mod_data("Y", "/mods/Y", &files(&[]), false, None, None);
    assert_eq!((m.version.as_deref(), m.author.as_deref()), (Some("Unknown"), Some("Unknown")));
    assert!(m.is_enabled);
}

#[test]
fn mod_json_fields_are_read_case_insensitively() {
    let json = ModJson {
        fields: vec![
            ("Name".to_string(), JsonField::Text("Summer Dress".to_string())),
            ("ICON".to_string(), JsonField::Text("  shinku ".to_string())),
            ("author".to_string(), JsonField::Other),
            (
                "Optionals".to_string(),
                JsonField::Object(vec![
                    ("Support Link".to_string(), Some(" ko-fi.com/x ".to_string())),
                    ("custom image url".to_string(), Some("http://i/x.png".to_string())),
                ]),
            ),
        ],
    };
    let m = mod_data("Dress_P", "/mods/Dress_P", &files(&["a.pak"]), false, Some(source("Ann")), Some(&json));
    assert!(m.has_json);
    assert_eq!(m.display_name, "Summer Dress");
    assert_eq!(m.version, Some("1.0.0".to_string()));
    assert_eq!(m.author, Some("Ann".to_string()));
    assert_eq!(m.icon, Some("shinku".to_string()));
    assert_eq!(m.support_link, Some("https://ko-fi.com/x".to_string()));
    assert_eq!(m.image_url, Some("http://i/x.png".to_string()));

    let bare = ModJson { fields: vec![("version".to_string(), JsonField::Text("2.1".to_string()))] };
    let m = mod_data("Dress_P", "/mods/Dress_P", &files(&[]), false, None, Some(&bare));
    assert_eq!(m.display_name, "Dress");
    assert_eq!(m.version, Some("2.1".to_string()));
    assert_eq!(m.author, Some("Unknown".to_string()));
    assert_eq!(m.support_link, None);
}

#[test]
fn scans_order_mods_by_folder_and_put_loose_mods_first() {
    let mk = |name: &str| mod_data(name, &format!("/mods/{name}"), &files(&["a.pak"]), false, None, None);
    let mut g = Group::new(Some("G".to_string()), Some("/mods/AU GRP - G".to_string()));
    for name in ["b", "B", "a", "b"] {
        g.add_mod(mk(name));
    }
    g.sort_mods();
    let order: Vec<String> = g.mods.iter().map(|m| m.folder_name.clone()).collect();
    assert_eq!(order, vec!["B", "a", "b", "b"]);
    let root = Group::new(None, None);
    assert_eq!(scanned_groups(root, vec![g]).len(), 1);
    let mut root = Group::new(None, None);
    root.add_mod(mk("z"));
    let other = Group::new(Some("H".to_string()), None);
    let all = scanned_groups(root, vec![other]);
    assert_eq!(all.len(), 2);
    assert_eq!(all[0].name, None);
}
