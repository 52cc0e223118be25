use aurora::characters::{character_for, display_name, icon_bytes, known, slugs};
use aurora::gbbrowser::characters;

#[test]
fn matches_the_shapes_mods_actually_use() {
    assert_eq!(character_for("Shinku"), Some("shinku"));
    assert_eq!(character_for("shinku.png"), Some("shinku"));
    assert_eq!(character_for("Shinku - Summer Dress_P"), Some("shinku"));
    assert_eq!(character_for("MyShinkuRetexture"), Some("shinku"));
    assert_eq!(character_for("Nothing In Particular"), None);
    assert_eq!(character_for(""), None);
}

#[test]
fn slugs_read_back_as_names() {
    assert_eq!(display_name("shinku"), "Shinku");
    assert_eq!(display_name("mc"), "MC");
    assert_eq!(display_name(""), "");
}

#[test]
fn both_zeros_draw_as_the_mc() {
    assert_eq!(character_for("Zero (F)"), Some("mc"));
    assert_eq!(character_for("Zero (M)"), Some("mc"));
    assert_eq!(character_for("zero"), Some("mc"));
    assert_eq!(character_for("MC"), Some("mc"));
}

#[test]
fn every_gamebanana_character_has_an_icon() {
    for (name, _) in characters() {
        assert!(character_for(name).is_some(), "no icon matches '{name}'");
    }
}

#[test]
fn every_slug_is_known_and_reads_back() {
    let all = slugs();
    assert!(!all.is_empty());
    for slug in all {
        assert_eq!(known(slug), Some(slug));
        assert!(!display_name(slug).is_empty());
    }
    assert_eq!(known("nobody"), None);
}

#[test]
fn icon_bytes_finds_the_slug_in_the_table() {
    let table = vec![
        ("mc".to_string(), vec![1u8, 2]),
        ("shinku".to_string(), vec![3u8]),
    ];
    assert_eq!(icon_bytes(&table, "shinku"), Some(&vec![3u8]));
    assert_eq!(icon_bytes(&table, "mc"), Some(&vec![1u8, 2]));
    assert_eq!(icon_bytes(&table, "nobody"), None);
}
