use reticle_app::geom::{Point, Rect};
use reticle_app::outline::{
    root_names, ArrayPlacement, OutlineCell, OutlineKind, OutlineTree, Placement, SavedSets,
};

#[test]
fn saved_set_round_trips() {
    let mut sets = SavedSets::new();
    assert!(sets.save("vias", &[3, 1, 2, 1]));
    // Stored sorted and deduplicated.
    assert_eq!(sets.restore("vias"), Some([1, 2, 3].as_slice()));
}

#[test]
fn saved_set_restore_missing_is_none() {
    let sets = SavedSets::new();
    assert_eq!(sets.restore("nope"), None);
}

#[test]
fn saving_same_name_replaces() {
    let mut sets = SavedSets::new();
    sets.save("a", &[1, 2]);
    sets.save("a", &[7, 8, 9]);
    assert_eq!(sets.len(), 1);
    assert_eq!(sets.restore("a"), Some([7, 8, 9].as_slice()));
}

#[test]
fn blank_name_is_refused() {
    let mut sets = SavedSets::new();
    assert!(!sets.save("   ", &[1, 2]));
    assert!(sets.is_empty());
}

#[test]
fn name_is_trimmed_on_save_and_restore() {
    let mut sets = SavedSets::new();
    assert!(sets.save("  ring  ", &[4, 5]));
    assert_eq!(sets.restore("ring"), Some([4, 5].as_slice()));
    assert_eq!(sets.sets()[0].name, "ring");
}

#[test]
fn remove_deletes_the_set() {
    let mut sets = SavedSets::new();
    sets.save("a", &[1]);
    sets.save("b", &[2]);
    assert!(sets.remove("a"));
    assert!(!sets.remove("a"));
    assert_eq!(sets.len(), 1);
    assert_eq!(sets.restore("b"), Some([2].as_slice()));
}

#[test]
fn empty_selection_can_be_saved_and_restored() {
    let mut sets = SavedSets::new();
    assert!(sets.save("empty", &[]));
    assert_eq!(sets.restore("empty"), Some([].as_slice()));
}

#[test]
fn saved_sets_keep_insertion_order_and_replace_in_place() {
    let mut sets = SavedSets::new();
    sets.save("first", &[9]);
    sets.save("second", &[5, 5, 0]);
    sets.save(" first ", &[2, 1]);
    let names: Vec<&str> = sets.sets().iter().map(|s| s.name.as_str()).collect();
    assert_eq!(names, vec!["first", "second"]);
    assert_eq!(sets.restore("second"), Some([0, 5].as_slice()));
    assert_eq!(sets.restore("  first"), Some([1, 2].as_slice()));
    assert!(!sets.remove("third"));
    assert_eq!(sets.len(), 2);
}

fn rect(x0: i32, y0: i32, x1: i32, y1: i32) -> Rect {
    Rect::new(Point::new(x0, y0), Point::new(x1, y1))
}

fn cell(name: &str, bbox: Option<Rect>) -> OutlineCell {
    OutlineCell { name: name.to_owned(), bbox, instances: Vec::new(), arrays: Vec::new() }
}

/// LEAF holds one 200x100 rectangle; TOP holds a small rectangle, LEAF placed
/// at (1000, 2000), and a 3x2 array of LEAF at (0, 5000) with pitches 400/300.
/// Each placement carries LEAF's box moved to its origin.
fn doc_with_hierarchy() -> (Vec<OutlineCell>, Vec<String>) {
    let leaf = cell("LEAF", Some(rect(0, 0, 200, 100)));
    let mut top = cell("TOP", Some(rect(0, 0, 1200, 5400)));
    top.instances.push(Placement {
        cell: "LEAF".to_owned(),
        origin: Point::new(1000, 2000),
        locate: Some(rect(1000, 2000, 1200, 2100)),
    });
    top.arrays.push(ArrayPlacement {
        cell: "LEAF".to_owned(),
        origin: Point::new(0, 5000),
        columns: 3,
        rows: 2,
        locate: Some(rect(0, 5000, 200, 5100)),
    });
    (vec![leaf, top], vec!["TOP".to_owned()])
}

#[test]
fn outline_lists_cell_then_placements() {
    let (cells, tops) = doc_with_hierarchy();
    let tree = OutlineTree::build(&cells, &tops);
    let kinds: Vec<_> = tree.nodes().iter().map(|n| n.kind).collect();
    assert_eq!(kinds, vec![OutlineKind::Cell, OutlineKind::Instance, OutlineKind::Array]);
    assert_eq!(tree.nodes()[0].label, "TOP");
    assert_eq!(tree.nodes()[0].depth, 0);
    assert_eq!(tree.nodes()[1].depth, 1);
}

#[test]
fn outline_instance_locate_is_transformed() {
    let (cells, tops) = doc_with_hierarchy();
    let tree = OutlineTree::build(&cells, &tops);
    let inst = tree.nodes().iter().find(|n| n.kind == OutlineKind::Instance).unwrap();
    // LEAF bbox is (0,0)-(200,100); translated by (1000, 2000).
    let loc = inst.locate.expect("instance has geometry");
    assert_eq!(loc.min, Point::new(1000, 2000));
    assert_eq!(loc.max, Point::new(1200, 2100));
}

#[test]
fn outline_placement_labels_carry_origin() {
    let (cells, tops) = doc_with_hierarchy();
    let tree = OutlineTree::build(&cells, &tops);
    let inst = tree.nodes().iter().find(|n| n.kind == OutlineKind::Instance).unwrap();
    assert_eq!(inst.label, "LEAF @ (1000, 2000)");
    let array = tree.nodes().iter().find(|n| n.kind == OutlineKind::Array).unwrap();
    assert_eq!(array.label, "LEAF [3x2] @ (0, 5000)");
}

#[test]
fn outline_falls_back_to_all_cells_without_top_cells() {
    let cells = vec![cell("BBB", None), cell("AAA", None)];
    // No top cells declared: list every cell, name-sorted.
    let tree = OutlineTree::build(&cells, &[]);
    let cell_labels: Vec<_> = tree
        .nodes()
        .iter()
        .filter(|n| n.kind == OutlineKind::Cell)
        .map(|n| n.label.clone())
        .collect();
    assert_eq!(cell_labels, vec!["AAA".to_owned(), "BBB".to_owned()]);
}

#[test]
fn outline_empty_document_is_empty() {
    assert!(OutlineTree::build(&[], &[]).is_empty());
    assert!(OutlineTree::default().is_empty());
}

#[test]
fn outline_empty_cell_has_no_locate() {
    let cells = vec![cell("EMPTY", None)];
    let tree = OutlineTree::build(&cells, &["EMPTY".to_owned()]);
    assert_eq!(tree.len(), 1);
    assert!(tree.nodes()[0].locate.is_none());
}

#[test]
fn outline_negative_origins_and_unknown_roots() {
    let mut top = cell("TOP", Some(rect(-10, -10, 10, 10)));
    top.instances.push(Placement {
        cell: "VIA".to_owned(),
        origin: Point::new(-5, -7),
        locate: None,
    });
    let cells = vec![top];
    let tree = OutlineTree::build(&cells, &["GHOST".to_owned(), "TOP".to_owned()]);
    // A declared top cell the document lacks still gets its row, with nothing
    // to frame and no children.
    assert_eq!(tree.len(), 3);
    assert_eq!(tree.nodes()[0].label, "GHOST");
    assert!(tree.nodes()[0].locate.is_none());
    assert_eq!(tree.nodes()[1].label, "TOP");
    assert_eq!(tree.nodes()[1].locate, Some(rect(-10, -10, 10, 10)));
    assert_eq!(tree.nodes()[2].label, "VIA @ (-5, -7)");
    assert_eq!(tree.nodes()[2].depth, 1);
}

#[test]
fn root_names_sort_by_text_and_keep_repeats() {
    let cells = vec![cell("b", None), cell("B", None), cell("a", None), cell("b", None)];
    let names: Vec<String> = root_names(&cells, &[]).iter().map(|v| v.iter().collect()).collect();
    assert_eq!(names, vec!["B", "a", "b", "b"]);
    let tops: Vec<String> = root_names(&cells, &["z".to_owned(), "a".to_owned()])
        .iter()
        .map(|v| v.iter().collect())
        .collect();
    assert_eq!(tops, vec!["z", "a"]);
}
