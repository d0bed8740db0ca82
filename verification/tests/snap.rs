use reticle_app::geom::{DrawShape, Endcap, LayerId, Path, Point, Polygon, Rect, ShapeKind};
use reticle_app::snap::{
    best_snap, nearest_geometry, shape_candidates, Guide, SnapCandidate, SnapHint, SnapKind,
    SnapState,
};

const L: LayerId = LayerId { layer: 0, datatype: 0 };

fn rect_shape(min: Point, max: Point) -> DrawShape {
    DrawShape::new(L, ShapeKind::Rect(Rect::new(min, max)))
}

/// The point of segment `a`..`b` nearest `p`, clamped to the ends and rounded
/// to DBU, as the canvas resolves an edge candidate.
fn foot(p: Point, a: Point, b: Point) -> Point {
    let (ax, ay, bx, by) = (a.x as f64, a.y as f64, b.x as f64, b.y as f64);
    let (px, py) = (p.x as f64, p.y as f64);
    let (dx, dy) = (bx - ax, by - ay);
    let len_sq = dx * dx + dy * dy;
    if len_sq <= 0.0 {
        return a;
    }
    let t = (((px - ax) * dx + (py - ay) * dy) / len_sq).clamp(0.0, 1.0);
    Point::new((ax + t * dx).round() as i32, (ay + t * dy).round() as i32)
}

fn resolve_all(cands: &[SnapCandidate], raw: Point) -> Vec<SnapHint> {
    cands
        .iter()
        .map(|c| match *c {
            SnapCandidate::Point { at, kind } => SnapHint { point: at, kind },
            SnapCandidate::Segment { a, b } => SnapHint { point: foot(raw, a, b), kind: SnapKind::Edge },
        })
        .collect()
}

fn nearest(raw: Point, radius: i64, cands: &[SnapCandidate]) -> Option<SnapHint> {
    nearest_geometry(raw, radius, &resolve_all(cands, raw))
}

#[test]
fn nearest_vertex_within_radius_wins() {
    let shape = rect_shape(Point::new(100, 100), Point::new(500, 300));
    let cands = shape_candidates(&shape);
    let hint = nearest(Point::new(95, 95), 20, &cands).expect("a snap");
    assert_eq!(hint.point, Point::new(100, 100));
    assert_eq!(hint.kind, SnapKind::Vertex);
}

#[test]
fn no_snap_when_all_candidates_outside_radius() {
    let shape = rect_shape(Point::new(100, 100), Point::new(500, 300));
    let cands = shape_candidates(&shape);
    assert!(nearest(Point::new(100_000, 100_000), 20, &cands).is_none());
}

#[test]
fn snaps_onto_edge_projection() {
    let shape = rect_shape(Point::new(0, 100), Point::new(1000, 400));
    let cands = shape_candidates(&shape);
    let hint = nearest(Point::new(300, 108), 20, &cands).expect("a snap");
    assert_eq!(hint.kind, SnapKind::Edge);
    assert_eq!(hint.point, Point::new(300, 100));
}

#[test]
fn snaps_to_edge_midpoint() {
    let shape = rect_shape(Point::new(0, 0), Point::new(1000, 400));
    let cands = shape_candidates(&shape);
    let hint = nearest(Point::new(500, 0), 20, &cands).expect("a snap");
    assert_eq!(hint.point, Point::new(500, 0));
    assert_eq!(hint.kind, SnapKind::Midpoint);
}

#[test]
fn snaps_to_center() {
    let shape = rect_shape(Point::new(0, 0), Point::new(400, 200));
    let cands = shape_candidates(&shape);
    let hint = nearest(Point::new(203, 98), 20, &cands).expect("a snap");
    assert_eq!(hint.point, Point::new(200, 100));
    assert_eq!(hint.kind, SnapKind::Center);
}

#[test]
fn vertex_beats_edge_on_a_tie() {
    let shape = rect_shape(Point::new(0, 0), Point::new(1000, 400));
    let cands = shape_candidates(&shape);
    let hint = nearest(Point::new(0, 0), 20, &cands).expect("a snap");
    assert_eq!(hint.kind, SnapKind::Vertex);
}

#[test]
fn polygon_vertices_and_edges_snap() {
    let poly = DrawShape::new(
        L,
        ShapeKind::Polygon(Polygon::new(vec![
            Point::new(0, 0),
            Point::new(1000, 0),
            Point::new(0, 1000),
        ])),
    );
    let cands = shape_candidates(&poly);
    let v = nearest(Point::new(-3, -3), 20, &cands).expect("vertex");
    assert_eq!(v.point, Point::new(0, 0));
    assert_eq!(v.kind, SnapKind::Vertex);
    let e = nearest(Point::new(300, 6), 20, &cands).expect("edge");
    assert_eq!(e.kind, SnapKind::Edge);
    assert_eq!(e.point, Point::new(300, 0));
}

#[test]
fn path_endpoints_are_vertices_and_closing_edge_is_absent() {
    let path = DrawShape::new(
        L,
        ShapeKind::Path(Path::new(vec![Point::new(0, 0), Point::new(1000, 0)], 50, Endcap::Flat)),
    );
    let cands = shape_candidates(&path);
    let seg_count = cands
        .iter()
        .filter(|c| matches!(c, SnapCandidate::Segment { .. }))
        .count();
    assert_eq!(seg_count, 1, "open path has exactly one segment");
    let hint = nearest(Point::new(1003, -2), 20, &cands).expect("endpoint");
    assert_eq!(hint.point, Point::new(1000, 0));
    assert_eq!(hint.kind, SnapKind::Vertex);
}

#[test]
fn polygon_has_closing_edge() {
    let poly = DrawShape::new(
        L,
        ShapeKind::Polygon(Polygon::new(vec![
            Point::new(0, 0),
            Point::new(1000, 0),
            Point::new(1000, 1000),
            Point::new(0, 1000),
        ])),
    );
    let cands = shape_candidates(&poly);
    let seg_count = cands
        .iter()
        .filter(|c| matches!(c, SnapCandidate::Segment { .. }))
        .count();
    assert_eq!(seg_count, 4);
}

#[test]
fn guide_snaps_single_axis() {
    let mut s = SnapState::default();
    s.add_guide(Guide::vertical(500));
    let hint = s.snap_to_guides(Point::new(496, 123), 20).expect("guide");
    assert_eq!(hint.point, Point::new(500, 123));
    assert_eq!(hint.kind, SnapKind::Guide);
    assert!(s.snap_to_guides(Point::new(400, 123), 20).is_none());
}

#[test]
fn crossing_guides_snap_to_intersection() {
    let mut s = SnapState::default();
    s.add_guide(Guide::vertical(500));
    s.add_guide(Guide::horizontal(300));
    let hint = s.snap_to_guides(Point::new(505, 296), 20).expect("intersection");
    assert_eq!(hint.point, Point::new(500, 300));
}

#[test]
fn nearest_guide_on_axis_wins() {
    let mut s = SnapState::default();
    s.add_guide(Guide::vertical(500));
    s.add_guide(Guide::vertical(508));
    let hint = s.snap_to_guides(Point::new(505, 0), 20).expect("guide");
    assert_eq!(hint.point.x, 508);
}

#[test]
fn guide_snap_respects_toggle() {
    let mut s = SnapState::default();
    s.add_guide(Guide::vertical(500));
    s.guide_enabled = false;
    assert!(s.snap_to_guides(Point::new(500, 0), 20).is_none());
}

#[test]
fn add_guide_dedupes_and_remove_works() {
    let mut s = SnapState::default();
    s.add_guide(Guide::vertical(500));
    s.add_guide(Guide::vertical(500));
    assert_eq!(s.guides.len(), 1, "exact duplicate is not added twice");
    s.add_guide(Guide::horizontal(500));
    assert_eq!(s.guides.len(), 2, "different axis is a distinct guide");
    s.remove_guide(0);
    assert_eq!(s.guides, vec![Guide::horizontal(500)]);
    s.clear_guides();
    assert!(s.guides.is_empty());
}

#[test]
fn best_snap_prefers_the_nearer_of_geometry_and_guide() {
    let mut s = SnapState::default();
    s.add_guide(Guide::vertical(80));
    let shape = rect_shape(Point::new(100, 100), Point::new(500, 300));
    let cands = shape_candidates(&shape);
    let raw = Point::new(95, 95);
    let hint = best_snap(&s, raw, 40, &resolve_all(&cands, raw)).expect("a snap");
    assert_eq!(hint.point, Point::new(100, 100));
    assert_eq!(hint.kind, SnapKind::Vertex);
}

#[test]
fn best_snap_uses_guide_when_geometry_disabled() {
    let mut s = SnapState { geometry_enabled: false, ..SnapState::default() };
    s.add_guide(Guide::horizontal(200));
    let shape = rect_shape(Point::new(0, 0), Point::new(50, 50));
    let cands = shape_candidates(&shape);
    let raw = Point::new(9999, 205);
    let hint = best_snap(&s, raw, 20, &resolve_all(&cands, raw)).expect("guide");
    assert_eq!(hint.point.y, 200);
    assert_eq!(hint.kind, SnapKind::Guide);
}

#[test]
fn best_snap_none_when_nothing_in_range() {
    let s = SnapState::default();
    let shape = rect_shape(Point::new(0, 0), Point::new(50, 50));
    let cands = shape_candidates(&shape);
    let raw = Point::new(100_000, 100_000);
    assert!(best_snap(&s, raw, 20, &resolve_all(&cands, raw)).is_none());
}

#[test]
fn rect_candidates_list_corners_edges_and_center() {
    let shape = rect_shape(Point::new(0, 0), Point::new(400, 200));
    let cands = shape_candidates(&shape);
    // Four corners, four edges each with a midpoint, and the center.
    assert_eq!(cands.len(), 4 + 8 + 1);
    assert_eq!(cands[0], SnapCandidate::Point { at: Point::new(0, 0), kind: SnapKind::Vertex });
    assert_eq!(cands[1], SnapCandidate::Point { at: Point::new(400, 0), kind: SnapKind::Vertex });
    assert_eq!(cands[4], SnapCandidate::Segment { a: Point::new(0, 0), b: Point::new(400, 0) });
    assert_eq!(cands[5], SnapCandidate::Point { at: Point::new(200, 0), kind: SnapKind::Midpoint });
    assert_eq!(cands[11], SnapCandidate::Point { at: Point::new(0, 100), kind: SnapKind::Midpoint });
    assert_eq!(cands[12], SnapCandidate::Point { at: Point::new(200, 100), kind: SnapKind::Center });
}

#[test]
fn midpoints_round_toward_zero() {
    let path = DrawShape::new(
        L,
        ShapeKind::Path(Path::new(vec![Point::new(-3, 3), Point::new(0, 0)], 10, Endcap::Flat)),
    );
    let cands = shape_candidates(&path);
    // (-3 + 0) / 2 rounds to -1, (3 + 0) / 2 to 1.
    assert_eq!(cands[3], SnapCandidate::Point { at: Point::new(-1, 1), kind: SnapKind::Midpoint });
    assert_eq!(cands[4], SnapCandidate::Point { at: Point::new(-1, 1), kind: SnapKind::Center });
}

#[test]
fn ties_go_to_the_earlier_candidate() {
    let raw = Point::new(0, 0);
    let hints = [
        SnapHint { point: Point::new(3, 4), kind: SnapKind::Edge },
        SnapHint { point: Point::new(4, 3), kind: SnapKind::Edge },
        SnapHint { point: Point::new(0, 5), kind: SnapKind::Center },
    ];
    let hint = nearest_geometry(raw, 5, &hints).expect("a snap");
    assert_eq!(hint.kind, SnapKind::Center);
    let hint = nearest_geometry(raw, 5, &hints[..2]).expect("a snap");
    assert_eq!(hint.point, Point::new(3, 4));
    assert!(nearest_geometry(raw, 0, &hints).is_none());
}

#[test]
fn snap_kind_labels() {
    assert_eq!(SnapKind::Vertex.label(), "vertex");
    assert_eq!(SnapKind::Edge.label(), "edge");
    assert_eq!(SnapKind::Midpoint.label(), "midpoint");
    assert_eq!(SnapKind::Center.label(), "center");
    assert_eq!(SnapKind::Guide.label(), "guide");
}
