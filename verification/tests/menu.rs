use reticle_app::menu::{build_menus, Menu, MenuEntry, MenuNode};

fn entry(id: &str, label: &str, path: &[&str], chord: Option<&str>) -> MenuEntry {
    MenuEntry {
        id: id.to_owned(),
        label: label.to_owned(),
        menu_path: Some(path.iter().map(|s| s.to_string()).collect()),
        visible: true,
        chord: chord.map(str::to_owned),
    }
}

/// A registry sample: commands across the standard menus, nested submenus,
/// a command without a menu path, and one not reachable on this target.
fn registry() -> Vec<MenuEntry> {
    let mut hidden = entry("web.only", "Web only", &["File"], None);
    hidden.visible = false;
    let mut palette = entry("view.palette", "Command palette", &[], Some("Ctrl+Shift+P"));
    palette.menu_path = None;
    vec![
        entry("help.tour", "Take the tour", &["Help"], None),
        entry("edit.undo", "Undo", &["Edit"], Some("Ctrl+Z")),
        entry("file.open", "Open...", &["File"], Some("Ctrl+O")),
        entry("view.snap", "Snap", &["View"], None),
        entry("view.split_h", "Split horizontally", &["View", "Split"], None),
        entry("select.all", "Select all", &["Select"], Some("Ctrl+A")),
        entry("draw.rect", "Rectangle", &["Draw"], Some("R")),
        entry("dev.add_demo_rect", "Insert demo rectangle", &["Help", "Developer"], None),
        entry("view.split_v", "Split vertically", &["View", "Split"], None),
        entry("dev.replay_theater", "Replay theater", &["Help", "Developer"], None),
        entry("edit.redo", "Redo", &["Edit"], Some("Ctrl+Shift+Z")),
        hidden,
        palette,
    ]
}

const TOP_ORDER: [&str; 8] = ["File", "Edit", "View", "Select", "Draw", "Verify", "Share", "Help"];

/// Every leaf as `(id, label, path)`, the path running from the top-level
/// menu down to the leaf's parent.
fn leaves(menus: &[Menu]) -> Vec<(String, String, Vec<String>)> {
    fn walk(nodes: &[MenuNode], path: &mut Vec<String>, out: &mut Vec<(String, String, Vec<String>)>) {
        for node in nodes {
            match node {
                MenuNode::Item { id, label, .. } => out.push((id.clone(), label.clone(), path.clone())),
                MenuNode::Sub { label, children } => {
                    path.push(label.clone());
                    walk(children, path, out);
                    path.pop();
                }
            }
        }
    }
    let mut out = Vec::new();
    for menu in menus {
        let mut path = vec![menu.label.clone()];
        walk(&menu.nodes, &mut path, &mut out);
    }
    out
}

fn find_item<'a>(nodes: &'a [MenuNode], want: &str) -> Option<&'a MenuNode> {
    for node in nodes {
        match node {
            MenuNode::Item { id, .. } if id == want => return Some(node),
            MenuNode::Sub { children, .. } => {
                if let Some(n) = find_item(children, want) {
                    return Some(n);
                }
            }
            _ => {}
        }
    }
    None
}

#[test]
fn top_level_menus_follow_the_fixed_order() {
    let menus = build_menus(&registry());
    let labels: Vec<&str> = menus.iter().map(|m| m.label.as_str()).collect();
    // The rendered order is a subsequence of the canonical order.
    let mut ranks: Vec<usize> = labels
        .iter()
        .map(|l| TOP_ORDER.iter().position(|t| t == l).expect("known menu"))
        .collect();
    let sorted = {
        let mut r = ranks.clone();
        r.sort_unstable();
        r
    };
    assert_eq!(ranks, sorted, "menus must be in canonical order: {labels:?}");
    ranks.dedup();
    assert_eq!(ranks.len(), labels.len(), "no duplicate top-level menus");
    for expect in ["File", "Edit", "View", "Select", "Draw", "Help"] {
        assert!(labels.contains(&expect), "menu {expect} is missing");
    }
}

#[test]
fn every_menu_command_appears_once_with_its_contracted_path() {
    let reg = registry();
    let menus = build_menus(&reg);
    let found = leaves(&menus);
    for spec in &reg {
        let Some(path) = &spec.menu_path else { continue };
        if !spec.visible {
            assert!(found.iter().all(|(id, _, _)| *id != spec.id));
            continue;
        }
        let hits: Vec<_> = found.iter().filter(|(id, _, _)| *id == spec.id).collect();
        assert_eq!(hits.len(), 1, "{} must appear exactly once", spec.id);
        assert_eq!(&hits[0].2, path);
    }
    // Every leaf comes from the registry.
    for (id, _, _) in &found {
        assert!(reg.iter().any(|e| &e.id == id));
    }
    assert_eq!(found.len(), 11);
}

#[test]
fn leaf_chords_reflect_the_keymap() {
    let menus = build_menus(&registry());
    let all: Vec<&MenuNode> = menus.iter().filter_map(|m| find_item(&m.nodes, "edit.undo")).collect();
    match all.first() {
        Some(MenuNode::Item { chord, .. }) => assert_eq!(chord.as_deref(), Some("Ctrl+Z")),
        _ => panic!("edit.undo not in the menu"),
    }
    let snap: Vec<&MenuNode> = menus.iter().filter_map(|m| find_item(&m.nodes, "view.snap")).collect();
    match snap.first() {
        Some(MenuNode::Item { chord, .. }) => assert_eq!(chord.as_deref(), None, "snap ships unbound"),
        _ => panic!("view.snap not in the menu"),
    }
}

#[test]
fn developer_actions_live_under_help_developer() {
    let menus = build_menus(&registry());
    let found = leaves(&menus);
    for (id, label, path) in &found {
        if id == "dev.add_demo_rect" {
            assert_eq!(label, "Insert demo rectangle");
            assert_eq!(path, &vec!["Help".to_owned(), "Developer".to_owned()]);
        }
    }
    assert!(found.iter().any(|(id, _, _)| id == "dev.add_demo_rect"));
    assert!(found.iter().any(|(id, _, _)| id == "dev.replay_theater"));
}

#[test]
fn submenus_are_created_once_and_keep_registry_order() {
    let menus = build_menus(&registry());
    let view = menus.iter().find(|m| m.label == "View").unwrap();
    // `Snap` first, then one `Split` submenu holding both splits in order.
    assert_eq!(view.nodes.len(), 2);
    match &view.nodes[1] {
        MenuNode::Sub { label, children } => {
            assert_eq!(label, "Split");
            let ids: Vec<&str> = children
                .iter()
                .map(|c| match c {
                    MenuNode::Item { id, .. } => id.as_str(),
                    MenuNode::Sub { label, .. } => label.as_str(),
                })
                .collect();
            assert_eq!(ids, vec!["view.split_h", "view.split_v"]);
        }
        other => panic!("expected the Split submenu, got {other:?}"),
    }
}

#[test]
fn unknown_top_level_menus_follow_the_known_ones() {
    let entries = vec![
        entry("x.one", "One", &["Extra"], None),
        entry("h.about", "About", &["Help"], None),
        entry("y.two", "Two", &["Other"], None),
        entry("f.new", "New", &["File"], None),
    ];
    let labels: Vec<String> = build_menus(&entries).iter().map(|m| m.label.clone()).collect();
    assert_eq!(labels, vec!["File", "Help", "Extra", "Other"]);
    assert!(build_menus(&[]).is_empty());
}
