use reticle_app::edit::Edit;
use reticle_app::geom::{DrawShape, LayerId, Point, Rect, ShapeKind};
use reticle_app::ops::{
    align_edits, align_offsets, editable_selection, mirror_edits, reflect_point, removals,
    selection_center, translate_edits, union_of, AlignKind, BoolKind, MirrorAxis,
};

const M1: LayerId = LayerId { layer: 4, datatype: 0 };

fn rect_shape(x0: i32, y0: i32, x1: i32, y1: i32) -> DrawShape {
    DrawShape::new(M1, ShapeKind::Rect(rect(x0, y0, x1, y1)))
}

/// The editable selection as `(cell index, shape)` pairs plus each shape's box.
fn selected_of(shapes: &[Rect], selection: &[usize]) -> (Vec<(usize, DrawShape)>, Vec<Rect>) {
    let idx = editable_selection(selection, shapes.len(), shapes.len());
    let sel = idx
        .iter()
        .map(|&i| (i, rect_shape(shapes[i].min.x, shapes[i].min.y, shapes[i].max.x, shapes[i].max.y)))
        .collect();
    let boxes = idx.iter().map(|&i| shapes[i]).collect();
    (sel, boxes)
}

/// The bounding box of the points of a shape an edit adds.
fn added_boxes(edits: &[Edit]) -> Vec<Rect> {
    edits
        .iter()
        .filter_map(|e| match e {
            Edit::AddShape { shape, .. } => Some(shape),
            _ => None,
        })
        .map(|s| {
            let pts: Vec<Point> = match &s.kind {
                ShapeKind::Rect(r) => vec![r.min, r.max],
                ShapeKind::Polygon(p) => p.vertices().to_vec(),
                ShapeKind::Path(p) => p.points().to_vec(),
            };
            let minx = pts.iter().map(|p| p.x).min().unwrap();
            let miny = pts.iter().map(|p| p.y).min().unwrap();
            let maxx = pts.iter().map(|p| p.x).max().unwrap();
            let maxy = pts.iter().map(|p| p.y).max().unwrap();
            rect(minx, miny, maxx, maxy)
        })
        .collect()
}

fn rect(x0: i32, y0: i32, x1: i32, y1: i32) -> Rect {
    Rect::new(Point::new(x0, y0), Point::new(x1, y1))
}

/// The boxes of the editable selection, in the order `editable_selection` gives.
fn selected_boxes(shapes: &[Rect], selection: &[usize]) -> Vec<Rect> {
    editable_selection(selection, shapes.len(), shapes.len())
        .iter()
        .map(|&i| shapes[i])
        .collect()
}

fn remove_indices(edits: &[Edit]) -> Vec<usize> {
    edits
        .iter()
        .filter_map(|e| match e {
            Edit::RemoveShape { index, .. } => Some(*index),
            _ => None,
        })
        .collect()
}

#[test]
fn align_left_moves_to_leftmost_edge() {
    let shapes = vec![
        rect(0, 0, 100, 100),   // left edge x=0 (leftmost)
        rect(200, 0, 260, 100), // left edge x=200
    ];
    let selected = selected_boxes(&shapes, &[0, 1]);
    let offsets = align_offsets(&selected, AlignKind::Left);
    assert_eq!(offsets[0], (0, 0)); // already leftmost
    assert_eq!(offsets[1], (-200, 0)); // moves left to x=0
}

#[test]
fn align_right_moves_to_rightmost_edge() {
    let shapes = vec![
        rect(0, 0, 100, 100),   // right edge x=100
        rect(200, 0, 260, 100), // right edge x=260 (rightmost)
    ];
    let selected = selected_boxes(&shapes, &[0, 1]);
    let offsets = align_offsets(&selected, AlignKind::Right);
    assert_eq!(offsets[0], (160, 0)); // 260 - 100
    assert_eq!(offsets[1], (0, 0));
}

#[test]
fn align_center_x_centers_on_selection() {
    let shapes = vec![
        rect(0, 0, 100, 100),   // center x=50
        rect(200, 0, 260, 100), // center x=230
    ];
    // Selection bounds x: [0, 260], center = 130.
    let selected = selected_boxes(&shapes, &[0, 1]);
    let offsets = align_offsets(&selected, AlignKind::CenterX);
    assert_eq!(offsets[0], (80, 0)); // 130 - 50
    assert_eq!(offsets[1], (-100, 0)); // 130 - 230
}

#[test]
fn align_top_moves_to_topmost_edge() {
    let shapes = vec![
        rect(0, 0, 100, 100),   // top y=100
        rect(0, 200, 100, 260), // top y=260 (topmost)
    ];
    let selected = selected_boxes(&shapes, &[0, 1]);
    let offsets = align_offsets(&selected, AlignKind::Top);
    assert_eq!(offsets[0], (0, 160)); // 260 - 100
    assert_eq!(offsets[1], (0, 0));
}

#[test]
fn empty_selection_yields_no_edits() {
    let shapes = vec![rect(0, 0, 100, 100)];
    let (sel, boxes) = selected_of(&shapes, &[]);
    assert!(sel.is_empty());
    assert!(align_edits(AlignKind::Left, &sel, &boxes, "TOP").is_empty());
    assert!(mirror_edits(MirrorAxis::Vertical, &sel, &boxes, "TOP").is_empty());
    assert!(selection_center(&boxes).is_none());
    assert!(removals("TOP", &[]).is_empty());
}

#[test]
fn mirror_is_its_own_inverse() {
    let shapes = vec![rect(10, 20, 40, 60)];
    let (sel, boxes) = selected_of(&shapes, &[0]);
    let once = mirror_edits(MirrorAxis::Vertical, &sel, &boxes, "TOP");
    let mirrored = match &once[1] {
        Edit::AddShape { shape, .. } => shape.clone(),
        other => panic!("expected an addition, got {other:?}"),
    };
    // Reflect the reflected shape again about the same center.
    let twice = mirror_edits(MirrorAxis::Vertical, &[(0, mirrored)], &boxes, "TOP");
    // Reflecting twice about the same axis returns the original geometry.
    assert_eq!(added_boxes(&twice), vec![shapes[0]]);
    let center = selection_center(&boxes).unwrap();
    for p in [Point::new(10, 20), Point::new(40, 60)] {
        let back = reflect_point(reflect_point(p, center, MirrorAxis::Vertical), center, MirrorAxis::Vertical);
        assert_eq!(back, p);
    }
    assert_eq!(sel.len(), 1);
}

#[test]
fn mirror_vertical_reflects_x_about_center() {
    // Squares at x in [0,100] and [200,300]; selection center x = 150, so a
    // vertical mirror sends x -> 300 - x and the combined box is unchanged.
    let shapes = vec![rect(0, 0, 100, 100), rect(200, 0, 300, 100)];
    let (sel, boxes) = selected_of(&shapes, &[0, 1]);
    let edits = mirror_edits(MirrorAxis::Vertical, &sel, &boxes, "TOP");
    assert_eq!(remove_indices(&edits), vec![1, 0]);
    let added = added_boxes(&edits);
    assert_eq!(added, vec![rect(200, 0, 300, 100), rect(0, 0, 100, 100)]);
    assert_eq!(union_of(&added), rect(0, 0, 300, 100));
}

#[test]
fn removals_are_distinct_and_highest_first() {
    let edits = removals("TOP", &[1, 3, 0, 3, 2]);
    assert_eq!(remove_indices(&edits), vec![3, 2, 1, 0]);
    for e in &edits {
        match e {
            Edit::RemoveShape { cell, .. } => assert_eq!(cell, "TOP"),
            _ => panic!("only removals expected"),
        }
    }
}

#[test]
fn editable_selection_drops_instance_geometry_and_sorts() {
    // Indices at or past the editable count, or past the scene, are dropped.
    assert_eq!(editable_selection(&[4, 0, 2, 7, 2], 6, 5), vec![0, 2, 2, 4]);
    assert_eq!(editable_selection(&[0, 1], 2, 1), vec![0]);
    assert_eq!(editable_selection(&[3], 2, 5), Vec::<usize>::new());
}

#[test]
fn selection_center_rounds_half_away_from_zero() {
    // Bounds x in [0, 1]: the midpoint 0.5 rounds up to 1.
    assert_eq!(selection_center(&[rect(0, 0, 1, 2)]), Some(Point::new(1, 1)));
    // Bounds x in [-1, 0]: the midpoint -0.5 rounds down to -1.
    assert_eq!(selection_center(&[rect(-1, -3, 0, 0)]), Some(Point::new(-1, -2)));
    assert_eq!(union_of(&[rect(0, 0, 10, 10), rect(-5, 3, 2, 20)]), rect(-5, 0, 10, 20));
}

#[test]
fn align_bottom_and_center_y() {
    let boxes = vec![rect(0, 10, 10, 20), rect(0, 40, 10, 100)];
    assert_eq!(align_offsets(&boxes, AlignKind::Bottom), vec![(0, 0), (0, -30)]);
    // Bounds y in [10, 100]: center 55; the boxes' centers are 15 and 70.
    assert_eq!(align_offsets(&boxes, AlignKind::CenterY), vec![(0, 40), (0, -15)]);
}

#[test]
fn bool_kind_labels() {
    assert_eq!(BoolKind::Union.label(), "Union");
    assert_eq!(BoolKind::Intersection.label(), "Intersection");
    assert_eq!(BoolKind::Difference.label(), "Difference");
    assert_eq!(BoolKind::Xor.label(), "XOR");
}

#[test]
fn align_edits_move_only_the_shapes_out_of_place() {
    let shapes = vec![rect(0, 0, 100, 100), rect(200, 0, 260, 100), rect(0, 300, 50, 400)];
    let (sel, boxes) = selected_of(&shapes, &[2, 0, 1]);
    let edits = align_edits(AlignKind::Left, &sel, &boxes, "TOP");
    // Shapes 0 and 2 already sit at x = 0; only shape 1 moves.
    assert_eq!(remove_indices(&edits), vec![1]);
    assert_eq!(added_boxes(&edits), vec![rect(0, 0, 60, 100)]);
    match &edits[1] {
        Edit::AddShape { cell, shape } => {
            assert_eq!(cell, "TOP");
            match &shape.kind {
                ShapeKind::Polygon(p) => assert_eq!(
                    p.vertices(),
                    &[Point::new(0, 0), Point::new(60, 0), Point::new(60, 100), Point::new(0, 100)]
                ),
                other => panic!("a rectangle comes back as its corner polygon, got {other:?}"),
            }
        }
        other => panic!("expected an addition, got {other:?}"),
    }
    // Everything already aligned: no edits.
    let (sel, boxes) = selected_of(&shapes, &[0, 2]);
    assert!(align_edits(AlignKind::Left, &sel, &boxes, "TOP").is_empty());
}

#[test]
fn translate_edits_remove_highest_first_then_add_in_selection_order() {
    let sel = vec![(0, rect_shape(0, 0, 10, 10)), (3, rect_shape(5, 5, 6, 6)), (1, rect_shape(0, 0, 1, 1))];
    let edits = translate_edits(&sel, &[(1, 0), (0, 0), (0, -2)], "TOP");
    assert_eq!(remove_indices(&edits), vec![1, 0]);
    assert_eq!(added_boxes(&edits), vec![rect(1, 0, 11, 10), rect(0, -2, 1, -1)]);
    assert!(translate_edits(&sel, &[(0, 0), (0, 0), (0, 0)], "TOP").is_empty());
}
