use aurora::modmanager::{FilterOption, Group, Mod, ModManagerHandler, ModSource, Row, ScannedGroup, StatusFilter};
use aurora::ordering::tally;

fn a_mod(path: &str, enabled: bool, author: Option<&str>) -> Mod {
    Mod {
        folder_name: path.rsplit('/').next().unwrap().to_string(),
        display_name: path.to_string(),
        path: path.to_string(),
        version: None,
        author: author.map(|a| a.to_string()),
        support_link: None,
        icon: None,
        image_url: None,
        has_icon_png: false,
        is_enabled: enabled,
        has_json: false,
        source: None,
    }
}

fn group(id: &str, name: &str, mods: Vec<Mod>) -> ScannedGroup {
    ScannedGroup { id: id.to_string(), name: name.to_string(), mods }
}

fn names(g: &ScannedGroup) -> Vec<String> {
    g.mods.iter().map(|m| m.folder_name.clone()).collect()
}

fn page() -> Vec<ScannedGroup> {
    vec![
        group("", "", vec![a_mod("/m/Alpha", true, None), a_mod("/m/Beta", false, None)]),
        group("/m/G", "Outfits", vec![a_mod("/m/G/Gamma", true, Some("Ann")), a_mod("/m/G/Delta", true, None)]),
        group("/m/E", "Empty", vec![]),
    ]
}

fn shown(gs: &[ScannedGroup]) -> Vec<Vec<String>> {
    gs.iter().map(names).collect()
}

#[test]
fn counting_gives_each_value_once_in_order() {
    let items: Vec<String> = ["b", "a", "b", "c", "a", "b"].iter().map(|s| s.to_string()).collect();
    assert_eq!(
        tally(&items),
        vec![("a".to_string(), 2), ("b".to_string(), 3), ("c".to_string(), 1)]
    );
    assert_eq!(tally(&vec![]), Vec::<(String, usize)>::new());
}

#[test]
fn rebuild_lists_every_group_without_filters() {
    let gs = page();
    let mut h = ModManagerHandler::new();
    h.toggle_selected("/m/G/Gamma");
    h.toggle_selected("/m/G/Delta");
    h.toggle_selected("/gone");
    h.toggle_group_selected("/m/E");
    h.toggle_group_selected("/m/G");
    h.note_toggle("/m/Alpha", true);
    h.note_toggle("/old", true);
    let plan = h.rebuild(&gs, &shown(&gs), true);
    assert_eq!(plan.sections.len(), 3);
    assert_eq!(
        plan.sections[0],
        vec![
            Row::Item { group: 0, index: 0, selected: false, restart_required: true },
            Row::Item { group: 0, index: 1, selected: false, restart_required: false },
        ]
    );
    assert_eq!(plan.sections[1][0], Row::Header { group: 1, enabled: true, selected: true, collapsed: false });
    assert_eq!(plan.sections[2], vec![Row::Header { group: 2, enabled: false, selected: true, collapsed: false }]);
    assert_eq!(plan.displayed, vec!["/m/Alpha", "/m/Beta", "/m/G/Gamma", "/m/G/Delta"]);
    assert_eq!(plan.selected_count, 2);
    assert!(!h.is_selected("/gone"));
    assert_eq!(plan.selected_group_count, 1);
    assert!(h.restart_required("/m/Alpha"));
    assert!(!h.restart_required("/old"));
    assert!(!plan.all_selected);
}

#[test]
fn rebuild_applies_search_filters_and_collapse() {
    let gs = page();
    let mut h = ModManagerHandler::new();
    h.note_toggle("/m/Alpha", true);
    h.set_search("gam");
    h.toggle_collapsed("/m/G");
    let plan = h.rebuild(&gs, &shown(&gs), false);
    assert_eq!(plan.sections, vec![vec![Row::Header { group: 1, enabled: true, selected: false, collapsed: true }]]);
    assert_eq!(plan.displayed, vec!["/m/G/Gamma"]);
    assert!(!h.restart_required("/m/Alpha"));

    let mut h = ModManagerHandler::new();
    h.set_filters(StatusFilter::Disabled, "", &vec![], &vec![]);
    let plan = h.rebuild(&gs, &shown(&gs), true);
    assert_eq!(plan.displayed, vec!["/m/Beta"]);
    assert_eq!(plan.sections.len(), 1);

    let mut h = ModManagerHandler::new();
    h.set_search("outfit");
    let plan = h.rebuild(&gs, &shown(&gs), true);
    assert_eq!(plan.displayed, vec!["/m/G/Gamma", "/m/G/Delta"]);
}

#[test]
fn filter_panel_counts_and_label() {
    let mut h = ModManagerHandler::new();
    let groups = vec![
        (String::new(), String::new(), 2),
        ("/m/G".to_string(), "Outfits".to_string(), 3),
    ];
    let characters = vec!["shinku".to_string(), "mc".to_string(), "shinku".to_string()];
    let authors = vec!["Ann".to_string()];
    let opts = h.filter_options(&groups, &characters, &authors, "All", "Ungrouped");
    let rows: Vec<(String, usize, bool)> = opts.groups.iter().map(|o: &FilterOption| (o.id.clone(), o.count, o.selected)).collect();
    assert_eq!(
        rows,
        vec![(String::new(), 5, true), ("\u{1}ungrouped".to_string(), 2, false), ("/m/G".to_string(), 3, false)]
    );
    assert_eq!(opts.label, "All");
    let chars: Vec<(String, usize)> = opts.characters.iter().map(|o| (o.id.clone(), o.count)).collect();
    assert_eq!(chars, vec![("mc".to_string(), 1), ("shinku".to_string(), 2)]);
    assert_eq!(opts.authors.len(), 1);
    h.set_filters(StatusFilter::All, "/m/G", &vec!["mc".to_string()], &vec![]);
    let opts = h.filter_options(&groups, &characters, &authors, "All", "Ungrouped");
    assert_eq!(opts.label, "Outfits");
    assert!(opts.characters[0].selected);
    assert!(!opts.characters[1].selected);
}

fn ids(v: &[&str]) -> Vec<String> {
    v.iter().map(|s| s.to_string()).collect()
}

#[test]
fn dragging_and_moving_selected_mods() {
    let mut h = ModManagerHandler::new();
    let shown = ids(&["/m/a", "/m/g/b", "/m/c"]);
    assert_eq!(h.drop_plan("/m/a", "/m/g", Some("/m"), &shown), (ids(&["/m/a"]), "/m/g".to_string()));
    assert_eq!(h.drop_plan("/m/g/b", "/m/g", Some("/m/g"), &shown), (ids(&["/m/g/b"]), String::new()));
    h.toggle_selected("/m/c");
    h.toggle_selected("/m/a");
    assert_eq!(h.selected_ids(&shown), ids(&["/m/a", "/m/c"]));
    assert_eq!(h.drop_plan("/m/c", "", None, &shown), (ids(&["/m/a", "/m/c"]), String::new()));
    assert_eq!(h.drop_plan("/m/g/b", "/m/x", None, &shown).0, ids(&["/m/g/b"]));
    assert!(h.all_selected(&ids(&["/m/a", "/m/c"])));
    assert!(!h.all_selected(&shown));
    h.moved("/m/a", "/m/g/a");
    assert!(h.is_selected("/m/g/a"));
    assert!(!h.is_selected("/m/a"));
    h.moved("/m/zzz", "/m/y");
    assert!(!h.is_selected("/m/y"));
    h.clear_selection();
    assert_eq!(h.selected_count(), 0);
}

#[test]
fn group_bookkeeping_follows_renames_and_deletes() {
    let mut h = ModManagerHandler::new();
    h.toggle_collapsed("/m/old");
    h.group_moved("/m/old", "/m/new");
    assert!(h.is_collapsed("/m/new"));
    assert!(!h.is_collapsed("/m/old"));
    h.toggle_group_selected("/m/g1");
    h.toggle_group_selected("/m/g2");
    let mut taken = h.take_selected_groups();
    taken.sort();
    assert_eq!(taken, ids(&["/m/g1", "/m/g2"]));
    assert!(h.take_selected_groups().is_empty());
}

#[test]
fn installed_sources_are_found() {
    let mut from_gb = a_mod("/m/g/x", true, None);
    from_gb.source = Some(ModSource {
        mod_id: 7,
        file_id: 70,
        file_name: "x.zip".to_string(),
        md5: String::new(),
        author: String::new(),
        name: String::new(),
    });
    let groups = vec![
        Group { name: None, path: None, mods: vec![a_mod("/m/a", true, None)] },
        Group { name: Some("g".to_string()), path: Some("/m/g".to_string()), mods: vec![from_gb] },
    ];
    assert!(ModManagerHandler::is_source_installed(&groups, 7, 70));
    assert!(!ModManagerHandler::is_source_installed(&groups, 7, 71));
    assert!(!ModManagerHandler::is_source_installed(&groups, 8, 70));
    assert!(!ModManagerHandler::is_source_installed(&vec![], 7, 70));
}
