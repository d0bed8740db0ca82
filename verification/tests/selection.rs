use reticle_app::geom::{LayerId, Point, Rect, ShapeInfo};
use reticle_app::selection::{shapes_in_rect, shapes_in_rect_on_layer, shapes_on_layer, Selection};

fn rect_on(layer: LayerId, x0: i32, y0: i32, x1: i32, y1: i32) -> ShapeInfo {
    ShapeInfo::new(layer, Rect::new(Point::new(x0, y0), Point::new(x1, y1)))
}

#[test]
fn select_one_replaces() {
    let mut sel = Selection::new();
    sel.select_one(3);
    sel.select_one(5);
    assert_eq!(sel.len(), 1);
    assert!(sel.contains(5));
    assert!(!sel.contains(3));
}

#[test]
fn toggle_adds_then_removes() {
    let mut sel = Selection::new();
    assert!(sel.toggle(7));
    assert!(sel.contains(7));
    assert!(!sel.toggle(7));
    assert!(!sel.contains(7));
}

#[test]
fn add_and_extend_union() {
    let mut sel = Selection::new();
    sel.add(1);
    sel.extend(&[2, 3, 3]);
    assert_eq!(sel.iter(), vec![1, 2, 3]);
}

#[test]
fn clear_empties() {
    let mut sel = Selection::new();
    sel.set(&[1, 2, 3]);
    assert_eq!(sel.len(), 3);
    sel.clear();
    assert!(sel.is_empty());
}

#[test]
fn rubber_band_selects_enclosed_only() {
    let l = LayerId::new(1, 0);
    let shapes = vec![
        rect_on(l, 0, 0, 100, 100),         // fully inside band
        rect_on(l, 50, 50, 400, 400),       // straddles band edge
        rect_on(l, 1000, 1000, 1100, 1100), // outside
    ];
    let band = Rect::new(Point::new(-10, -10), Point::new(300, 300));
    let hits = shapes_in_rect(&shapes, band);
    assert_eq!(hits, vec![0]);
}

#[test]
fn subtract_removes_indices() {
    let mut sel = Selection::new();
    sel.set(&[1, 2, 3, 4]);
    sel.subtract(&[2, 4, 9]);
    assert_eq!(sel.iter(), vec![1, 3]);
}

#[test]
fn same_layer_marquee_filters_to_one_layer() {
    let m1 = LayerId::new(4, 0);
    let m2 = LayerId::new(5, 0);
    let shapes = vec![
        rect_on(m1, 0, 0, 100, 100),
        rect_on(m2, 120, 120, 200, 200),
        rect_on(m1, 210, 210, 260, 260),
    ];
    let band = Rect::new(Point::new(-10, -10), Point::new(300, 300));
    // No filter: every enclosed shape.
    assert_eq!(shapes_in_rect_on_layer(&shapes, band, None), vec![0, 1, 2]);
    // Filter to m1: only the two m1 shapes inside the band.
    assert_eq!(shapes_in_rect_on_layer(&shapes, band, Some(m1)), vec![0, 2]);
}

#[test]
fn select_by_layer_matches_layer() {
    let m1 = LayerId::new(4, 0);
    let m2 = LayerId::new(5, 0);
    let shapes = vec![
        rect_on(m1, 0, 0, 10, 10),
        rect_on(m2, 0, 0, 10, 10),
        rect_on(m1, 20, 20, 30, 30),
    ];
    assert_eq!(shapes_on_layer(&shapes, m1), vec![0, 2]);
    assert_eq!(shapes_on_layer(&shapes, m2), vec![1]);
    assert!(shapes_on_layer(&shapes, LayerId::new(9, 9)).is_empty());
}
