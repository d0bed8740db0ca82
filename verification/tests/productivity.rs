use reticle_app::geom::{DrawShape, Endcap, LayerId, Path, Point, Polygon, Rect, ShapeKind};
use reticle_app::productivity::{
    array_element_count, array_offsets, array_shapes, enclosure_of, rect_center,
    translate_shape, translate_shapes, via_stack_shapes, Clipboard, ProductivityState, Rule,
    RuleKind, Technology,
};

const M1: LayerId = LayerId { layer: 4, datatype: 0 };
const M2: LayerId = LayerId { layer: 5, datatype: 0 };
const CUT: LayerId = LayerId { layer: 7, datatype: 0 };

fn rect_shape(layer: LayerId, x0: i32, y0: i32, x1: i32, y1: i32) -> DrawShape {
    DrawShape::new(
        layer,
        ShapeKind::Rect(Rect::new(Point::new(x0, y0), Point::new(x1, y1))),
    )
}

fn rect_of(shape: &DrawShape) -> Rect {
    match &shape.kind {
        ShapeKind::Rect(r) => *r,
        other => panic!("expected a rect, got {other:?}"),
    }
}

fn tech_with_enclosure(outer: LayerId, inner: LayerId, value: i64) -> Technology {
    Technology {
        rules: vec![Rule {
            name: "via.enc".to_owned(),
            kind: RuleKind::Enclosure,
            layer: outer,
            other_layer: Some(inner),
            value,
        }],
    }
}

#[test]
fn translate_shape_moves_rect_corners() {
    let s = rect_shape(M1, 0, 0, 100, 50);
    let moved = translate_shape(&s, 30, -20);
    let r = rect_of(&moved);
    assert_eq!(r.min, Point::new(30, -20));
    assert_eq!(r.max, Point::new(130, 30));
    assert_eq!(moved.layer, M1);
}

#[test]
fn translate_shape_preserves_path_width_and_cap() {
    let path = DrawShape::new(
        M2,
        ShapeKind::Path(Path::new(
            vec![Point::new(0, 0), Point::new(100, 0)],
            40,
            Endcap::Square,
        )),
    );
    let moved = translate_shape(&path, 5, 7);
    match &moved.kind {
        ShapeKind::Path(p) => {
            assert_eq!(p.points()[0], Point::new(5, 7));
            assert_eq!(p.points()[1], Point::new(105, 7));
            assert_eq!(p.width(), 40);
            assert_eq!(p.endcap(), Endcap::Square);
        }
        other => panic!("expected a path, got {other:?}"),
    }
}

#[test]
fn translate_shape_moves_polygon_vertices() {
    let poly = DrawShape::new(
        M1,
        ShapeKind::Polygon(Polygon::new(vec![
            Point::new(0, 0),
            Point::new(10, 0),
            Point::new(10, 10),
        ])),
    );
    let moved = translate_shape(&poly, -3, 4);
    match &moved.kind {
        ShapeKind::Polygon(p) => {
            assert_eq!(
                p.vertices(),
                &[Point::new(-3, 4), Point::new(7, 4), Point::new(7, 14)]
            );
        }
        other => panic!("expected a polygon, got {other:?}"),
    }
}

#[test]
fn paste_offset_shifts_every_shape_by_the_same_delta() {
    let shapes = vec![
        rect_shape(M1, 0, 0, 10, 10),
        rect_shape(M2, 100, 100, 120, 140),
    ];
    let pasted = translate_shapes(&shapes, 200, 200);
    assert_eq!(pasted.len(), 2);
    assert_eq!(rect_of(&pasted[0]).min, Point::new(200, 200));
    assert_eq!(rect_of(&pasted[0]).max, Point::new(210, 210));
    assert_eq!(rect_of(&pasted[1]).min, Point::new(300, 300));
    assert_eq!(rect_of(&pasted[1]).max, Point::new(320, 340));
    // Layers are preserved through the paste.
    assert_eq!(pasted[0].layer, M1);
    assert_eq!(pasted[1].layer, M2);
}

#[test]
fn clipboard_round_trips_shapes() {
    let mut clip = Clipboard::new();
    assert!(clip.is_empty());
    clip.set(vec![rect_shape(M1, 0, 0, 10, 10)]);
    assert_eq!(clip.len(), 1);
    assert!(!clip.is_empty());
    clip.clear();
    assert!(clip.is_empty());
}

#[test]
fn array_offsets_are_row_major_with_pitch() {
    let offsets = array_offsets(2, 3, 1000, 500);
    assert_eq!(
        offsets,
        vec![
            (0, 0),
            (500, 0),
            (1000, 0),
            (0, 1000),
            (500, 1000),
            (1000, 1000),
        ]
    );
}

#[test]
fn array_offsets_empty_when_a_dimension_is_zero() {
    assert!(array_offsets(0, 5, 100, 100).is_empty());
    assert!(array_offsets(5, 0, 100, 100).is_empty());
}

#[test]
fn array_shapes_count_is_shapes_times_rows_times_cols() {
    let src = vec![rect_shape(M1, 0, 0, 100, 100), rect_shape(M2, 0, 0, 50, 50)];
    let rows = 3;
    let cols = 4;
    let arrayed = array_shapes(&src, rows, cols, 2000, 1500);
    assert_eq!(arrayed.len(), src.len() * rows as usize * cols as usize);
}

#[test]
fn array_shapes_place_elements_at_expected_positions() {
    let src = vec![rect_shape(M1, 0, 0, 100, 100)];
    // 2 rows x 2 cols, pitch 1000 x 1000: four rects at the grid corners.
    let arrayed = array_shapes(&src, 2, 2, 1000, 1000);
    let mins: Vec<Point> = arrayed.iter().map(|s| rect_of(s).min).collect();
    assert_eq!(
        mins,
        vec![
            Point::new(0, 0),
            Point::new(1000, 0),
            Point::new(0, 1000),
            Point::new(1000, 1000),
        ]
    );
}

#[test]
fn array_element_count_and_guard() {
    assert_eq!(array_element_count(10, 10), 100);
    let mut state = ProductivityState::new();
    state.array_rows = 400;
    state.array_cols = 400; // 160_000 > MAX_ARRAY_ELEMENTS
    assert_eq!(state.array_count(), 160_000);
    assert!(!state.array_is_committable());
    state.array_rows = 10;
    state.array_cols = 10;
    assert!(state.array_is_committable());
    state.array_rows = 0;
    assert!(!state.array_is_committable());
}

#[test]
fn array_offsets_saturate_instead_of_overflowing() {
    // A large pitch times a large index would overflow i32 if multiplied
    // narrow; the widened, clamped math must saturate at i32::MAX.
    let offsets = array_offsets(1, 3, i32::MAX, 0);
    // Row pitch is 0, so all dy are 0; column pitch drives dx here instead.
    assert_eq!(offsets.len(), 3);
    let offsets = array_offsets(3, 1, i32::MAX, 0);
    assert_eq!(offsets[2].1, i32::MAX); // 2 * i32::MAX clamps to i32::MAX
}

#[test]
fn enclosure_of_finds_matching_rule() {
    let tech = tech_with_enclosure(M1, CUT, 60);
    assert_eq!(enclosure_of(&tech.rules, M1, CUT), Some(60));
    // Wrong direction (inner/outer swapped) does not match.
    assert_eq!(enclosure_of(&tech.rules, CUT, M1), None);
    // A layer with no rule returns None.
    assert_eq!(enclosure_of(&tech.rules, M2, CUT), None);
}

#[test]
fn enclosure_of_takes_the_largest_when_several_apply() {
    let mut tech = tech_with_enclosure(M1, CUT, 40);
    tech.rules.push(Rule {
        name: "via.enc.wide".to_owned(),
        kind: RuleKind::Enclosure,
        layer: M1,
        other_layer: Some(CUT),
        value: 90,
    });
    assert_eq!(enclosure_of(&tech.rules, M1, CUT), Some(90));
}

#[test]
fn via_stack_sizes_enclosures_from_rules() {
    // METAL1 encloses the cut by 60, METAL2 by 100.
    let mut tech = tech_with_enclosure(M1, CUT, 60);
    tech.rules.push(Rule {
        name: "m2.enc".to_owned(),
        kind: RuleKind::Enclosure,
        layer: M2,
        other_layer: Some(CUT),
        value: 100,
    });
    // Even-sized cut centered at the origin: 200 x 200 spanning [-100, 100].
    let stack = via_stack_shapes(&tech, M1, M2, CUT, Point::new(0, 0), 200, 10)
        .expect("positive cut size yields a stack");

    let cut = rect_of(&stack.cut);
    assert_eq!(cut.min, Point::new(-100, -100));
    assert_eq!(cut.max, Point::new(100, 100));
    assert_eq!(stack.cut.layer, CUT);

    // Lower enclosure: cut expanded by 60 on every side.
    let lower = rect_of(&stack.lower_enclosure);
    assert_eq!(lower.min, Point::new(-160, -160));
    assert_eq!(lower.max, Point::new(160, 160));
    assert_eq!(stack.lower_enclosure.layer, M1);

    // Upper enclosure: cut expanded by 100 on every side.
    let upper = rect_of(&stack.upper_enclosure);
    assert_eq!(upper.min, Point::new(-200, -200));
    assert_eq!(upper.max, Point::new(200, 200));
    assert_eq!(stack.upper_enclosure.layer, M2);
}

#[test]
fn via_stack_falls_back_to_default_enclosure_without_a_rule() {
    // A technology with no enclosure rules at all.
    let tech = Technology { rules: Vec::new() };
    let stack = via_stack_shapes(&tech, M1, M2, CUT, Point::new(0, 0), 100, 25)
        .expect("positive cut size yields a stack");
    let cut = rect_of(&stack.cut);
    let lower = rect_of(&stack.lower_enclosure);
    // Both enclosures use the 25 DBU fallback margin.
    assert_eq!(lower.min.x, cut.min.x - 25);
    assert_eq!(lower.max.x, cut.max.x + 25);
    assert_eq!(rect_of(&stack.upper_enclosure).max.y, cut.max.y + 25);
}

#[test]
fn via_stack_rejects_nonpositive_cut() {
    let tech = tech_with_enclosure(M1, CUT, 60);
    assert!(via_stack_shapes(&tech, M1, M2, CUT, Point::new(0, 0), 0, 10).is_none());
    assert!(via_stack_shapes(&tech, M1, M2, CUT, Point::new(0, 0), -50, 10).is_none());
}

#[test]
fn via_stack_into_shapes_is_cut_then_enclosures() {
    let tech = tech_with_enclosure(M1, CUT, 60);
    let stack = via_stack_shapes(&tech, M1, M2, CUT, Point::new(0, 0), 200, 10).unwrap();
    let shapes = stack.into_shapes();
    assert_eq!(shapes.len(), 3);
    assert_eq!(shapes[0].layer, CUT);
    assert_eq!(shapes[1].layer, M1);
    assert_eq!(shapes[2].layer, M2);
}

#[test]
fn rect_center_is_the_midpoint() {
    assert_eq!(
        rect_center(Rect::new(Point::new(0, 0), Point::new(100, 200))),
        Point::new(50, 100)
    );
    // Odd span rounds toward zero.
    assert_eq!(
        rect_center(Rect::new(Point::new(0, 0), Point::new(5, 5))),
        Point::new(2, 2)
    );
}

#[test]
fn move_delta_uses_the_shared_translate() {
    // Move-by-delta is exactly translate_shapes with the panel's dx/dy.
    let sel = vec![rect_shape(M1, 10, 10, 20, 20)];
    let moved = translate_shapes(&sel, -5, 15);
    assert_eq!(rect_of(&moved[0]).min, Point::new(5, 25));
    assert_eq!(rect_of(&moved[0]).max, Point::new(15, 35));
}

#[test]
fn default_state_is_a_committable_small_array() {
    let state = ProductivityState::new();
    assert_eq!(state.array_rows, 2);
    assert_eq!(state.array_cols, 2);
    assert!(state.array_is_committable());
    assert!(state.clipboard.is_empty());
}

#[test]
fn translate_saturates_at_the_dbu_range() {
    let s = rect_shape(M1, i32::MAX - 5, i32::MIN + 5, i32::MAX, i32::MIN + 10);
    let moved = translate_shape(&s, 100, -100);
    let r = rect_of(&moved);
    assert_eq!(r.min, Point::new(i32::MAX, i32::MIN));
    assert_eq!(r.max, Point::new(i32::MAX, i32::MIN));
}

#[test]
fn array_shapes_stamp_every_source_shape_per_element() {
    let src = vec![rect_shape(M1, 0, 0, 10, 10), rect_shape(M2, 5, 5, 6, 6)];
    let arrayed = array_shapes(&src, 1, 2, 0, 100);
    let got: Vec<(LayerId, Point)> = arrayed.iter().map(|s| (s.layer, rect_of(s).min)).collect();
    assert_eq!(
        got,
        vec![
            (M1, Point::new(0, 0)),
            (M2, Point::new(5, 5)),
            (M1, Point::new(100, 0)),
            (M2, Point::new(105, 5)),
        ]
    );
}

#[test]
fn enclosure_of_ignores_other_rule_kinds_and_clamps_values() {
    let tech = Technology {
        rules: vec![
            Rule {
                name: "m1.width".to_owned(),
                kind: RuleKind::Width,
                layer: M1,
                other_layer: Some(CUT),
                value: 500,
            },
            Rule {
                name: "m1.enc.huge".to_owned(),
                kind: RuleKind::Enclosure,
                layer: M1,
                other_layer: Some(CUT),
                value: 1 << 40,
            },
        ],
    };
    assert_eq!(enclosure_of(&tech.rules, M1, CUT), Some(i32::MAX));
    assert_eq!(enclosure_of(&tech.rules[..1], M1, CUT), None);
}

#[test]
fn via_stack_odd_cut_rounds_the_far_corner_up_and_ignores_negative_margins() {
    let stack = via_stack_shapes(&tech_with_enclosure(M1, CUT, -30), M1, M2, CUT, Point::new(10, 10), 5, 7)
        .unwrap();
    let cut = rect_of(&stack.cut);
    assert_eq!(cut.min, Point::new(8, 8));
    assert_eq!(cut.max, Point::new(13, 13));
    assert_eq!(rect_of(&stack.lower_enclosure), cut);
    let upper = rect_of(&stack.upper_enclosure);
    assert_eq!(upper.min, Point::new(1, 1));
    assert_eq!(upper.max, Point::new(20, 20));
    let [a, b, c] = stack.shapes();
    assert_eq!((a.layer, b.layer, c.layer), (CUT, M1, M2));
}

#[test]
fn rect_center_rounds_negative_spans_toward_zero() {
    assert_eq!(
        rect_center(Rect::new(Point::new(-5, -5), Point::new(0, 0))),
        Point::new(-2, -2)
    );
}

#[test]
fn clipboard_keeps_copy_order() {
    let mut clip = Clipboard::new();
    clip.set(vec![rect_shape(M2, 0, 0, 1, 1), rect_shape(M1, 0, 0, 1, 1)]);
    let layers: Vec<LayerId> = clip.shapes().iter().map(|s| s.layer).collect();
    assert_eq!(layers, vec![M2, M1]);
}
