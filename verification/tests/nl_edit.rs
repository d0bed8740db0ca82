use reticle_app::edit::Edit;
use reticle_app::geom::{DrawShape, LayerId, Point, Rect, ShapeKind};
use reticle_app::nl_edit::{
    build_edits, parse, parse_cols_by_rows, NlEditError, NlInstruction, GRAMMAR_HELP,
};

const TOP: &str = "TOP";

fn rect_shape(layer: LayerId, x0: i32, y0: i32, x1: i32, y1: i32) -> DrawShape {
    DrawShape::new(
        layer,
        ShapeKind::Rect(Rect::new(Point::new(x0, y0), Point::new(x1, y1))),
    )
}

fn rect_of(shape: &DrawShape) -> Rect {
    match &shape.kind {
        ShapeKind::Rect(r) => *r,
        other => panic!("expected a rect, got {other:?}"),
    }
}

#[test]
fn add_rect_parses() {
    let got = parse("add rect 4 0 0 1000 500").expect("parses");
    assert_eq!(
        got,
        NlInstruction::AddRect {
            layer: LayerId::new(4, 0),
            rect: Rect::new(Point::new(0, 0), Point::new(1000, 500)),
        }
    );
}

#[test]
fn add_rect_with_datatype_parses() {
    let got = parse("add rect 4/2 0 0 100 100").expect("parses");
    assert_eq!(
        got,
        NlInstruction::AddRect {
            layer: LayerId::new(4, 2),
            rect: Rect::new(Point::new(0, 0), Point::new(100, 100)),
        }
    );
}

#[test]
fn add_rect_is_case_and_whitespace_insensitive() {
    let a = parse("ADD RECT 4 0 0 100 100").expect("parses");
    let b = parse("  add   rect  4  0 0 100 100  ").expect("parses");
    assert_eq!(a, b);
}

#[test]
fn add_rect_normalizes_corner_order() {
    // Corners given "backwards" still produce the same normalized rectangle;
    // the user is not required to give min-then-max.
    let forward = parse("add rect 4 0 0 1000 500").expect("parses");
    let backward = parse("add rect 4 1000 500 0 0").expect("parses");
    assert_eq!(forward, backward);
}

#[test]
fn add_rect_rejects_degenerate_rect() {
    let err = parse("add rect 4 0 0 0 500").unwrap_err();
    assert!(matches!(
        err,
        NlEditError::OutOfRange {
            form: "add rect",
            ..
        }
    ));
    let err = parse("add rect 4 0 0 1000 0").unwrap_err();
    assert!(matches!(
        err,
        NlEditError::OutOfRange {
            form: "add rect",
            ..
        }
    ));
}

#[test]
fn add_rect_rejects_wrong_token_count() {
    let err = parse("add rect 4 0 0 1000").unwrap_err();
    assert!(matches!(
        err,
        NlEditError::Malformed {
            form: "add rect",
            ..
        }
    ));
}

#[test]
fn add_rect_rejects_garbage_number() {
    let err = parse("add rect 4 zero 0 100 100").unwrap_err();
    assert!(matches!(
        err,
        NlEditError::Malformed {
            form: "add rect",
            ..
        }
    ));
}

#[test]
fn add_rect_rejects_layer_out_of_range() {
    // u16::MAX is 65535; 99999 overflows it.
    let err = parse("add rect 99999 0 0 100 100").unwrap_err();
    assert!(matches!(
        err,
        NlEditError::Malformed {
            form: "add rect",
            ..
        }
    ));
}

#[test]
fn add_rect_rejects_wrong_keyword() {
    let err = parse("add circle 4 0 0 100 100").unwrap_err();
    assert!(matches!(
        err,
        NlEditError::Malformed {
            form: "add rect",
            ..
        }
    ));
}

#[test]
fn delete_selected_parses() {
    assert_eq!(
        parse("delete selected").expect("parses"),
        NlInstruction::DeleteSelected
    );
    assert_eq!(
        parse("DELETE SELECTED").expect("parses"),
        NlInstruction::DeleteSelected
    );
}

#[test]
fn delete_selected_rejects_garbage_suffix() {
    let err = parse("delete selected now").unwrap_err();
    assert!(matches!(
        err,
        NlEditError::Malformed {
            form: "delete selected",
            ..
        }
    ));
}

#[test]
fn delete_selected_rejects_wrong_keyword() {
    let err = parse("delete all").unwrap_err();
    assert!(matches!(
        err,
        NlEditError::Malformed {
            form: "delete selected",
            ..
        }
    ));
}

#[test]
fn array_parses() {
    assert_eq!(
        parse("array 3x4 pitch 1000 2000").expect("parses"),
        NlInstruction::Array {
            cols: 3,
            rows: 4,
            pitch_x: 1000,
            pitch_y: 2000,
        }
    );
}

#[test]
fn array_dimension_separator_is_case_insensitive() {
    let a = parse("array 3x4 pitch 100 100").expect("parses");
    let b = parse("array 3X4 pitch 100 100").expect("parses");
    assert_eq!(a, b);
}

#[test]
fn array_rejects_zero_dimension() {
    let err = parse("array 0x4 pitch 100 100").unwrap_err();
    assert!(matches!(err, NlEditError::OutOfRange { form: "array", .. }));
    let err = parse("array 4x0 pitch 100 100").unwrap_err();
    assert!(matches!(err, NlEditError::OutOfRange { form: "array", .. }));
}

#[test]
fn array_rejects_over_the_element_cap() {
    // 1000 * 1000 = 1,000,000 > MAX_ARRAY_ELEMENTS (100_000).
    let err = parse("array 1000x1000 pitch 10 10").unwrap_err();
    assert!(matches!(err, NlEditError::OutOfRange { form: "array", .. }));
}

#[test]
fn array_rejects_missing_pitch_keyword() {
    let err = parse("array 3x4 100 100").unwrap_err();
    assert!(matches!(err, NlEditError::Malformed { form: "array", .. }));
}

#[test]
fn array_rejects_malformed_dims() {
    let err = parse("array 3-4 pitch 100 100").unwrap_err();
    assert!(matches!(err, NlEditError::Malformed { form: "array", .. }));
    let err = parse("array threexfour pitch 100 100").unwrap_err();
    assert!(matches!(err, NlEditError::Malformed { form: "array", .. }));
}

#[test]
fn move_parses() {
    assert_eq!(
        parse("move 100 -50").expect("parses"),
        NlInstruction::Move { dx: 100, dy: -50 }
    );
}

#[test]
fn move_rejects_wrong_token_count() {
    let err = parse("move 100").unwrap_err();
    assert!(matches!(err, NlEditError::Malformed { form: "move", .. }));
    let err = parse("move 100 50 25").unwrap_err();
    assert!(matches!(err, NlEditError::Malformed { form: "move", .. }));
}

#[test]
fn move_rejects_garbage_number() {
    let err = parse("move ten twenty").unwrap_err();
    assert!(matches!(err, NlEditError::Malformed { form: "move", .. }));
}

#[test]
fn unknown_verb_errors() {
    let err = parse("frobnicate everything").unwrap_err();
    assert_eq!(
        err,
        NlEditError::UnknownVerb {
            verb: "frobnicate".to_owned()
        }
    );
}

#[test]
fn empty_input_errors() {
    assert_eq!(parse(""), Err(NlEditError::Empty));
    assert_eq!(parse("   "), Err(NlEditError::Empty));
    assert_eq!(parse("\t\n"), Err(NlEditError::Empty));
}

#[test]
fn parse_is_deterministic() {
    let inputs = [
        "add rect 4 0 0 1000 500",
        "delete selected",
        "array 3x4 pitch 1000 1000",
        "move 100 -50",
        "",
        "bogus",
        "add rect 4 0 0 0 0",
        "array 0x0 pitch 1 1",
    ];
    for input in inputs {
        assert_eq!(
            parse(input),
            parse(input),
            "parse must be deterministic for {input:?}"
        );
    }
}

#[test]
fn parse_never_panics_on_adversarial_input() {
    // A battery of hostile strings: huge numbers, unicode, only separators,
    // deeply repeated tokens, control characters. None of these are valid
    // grammar; the point is that `parse` returns `Err` for all of them
    // instead of panicking (a wasm panic kills the tab).
    // Bound to locals (rather than borrowed inline) so the `&str`s in the
    // list below borrow from a value that outlives the loop, not a
    // temporary that would be dropped at the end of this statement.
    let long_run = "x".repeat(10_000);
    let repeated_valid = "add rect 4 0 0 100 100 ".repeat(1_000);
    let adversarial: Vec<&str> = vec![
        "",
        " ",
        "\t\t\t",
        "add",
        "add rect",
        "add rect rect rect rect rect rect",
        "add rect 99999999999999999999 0 0 100 100",
        "add rect 4 99999999999999999999 0 100 100",
        "array xxxxx pitch 1 1",
        "array 3x4x5 pitch 1 1",
        "array 3x pitch 1 1",
        "array x4 pitch 1 1",
        "move 99999999999999999999 0",
        "move - -",
        "delete",
        "delete selected selected selected",
        "\u{0}\u{0}\u{0}",
        "\u{1F600}\u{1F600} rect 4 0 0 100 100",
        "add rect \u{1F600} 0 0 100 100",
        "-- -- --",
        "add rect 4 0 0 100 100 extra garbage tokens here to overflow",
        long_run.as_str(),
        repeated_valid.as_str(),
    ];
    for input in adversarial {
        // The only property under test is "does not panic"; every one of
        // these is invalid grammar, so `Err` is also asserted as a sanity
        // check that the battery is actually adversarial.
        assert!(parse(input).is_err(), "expected an error for {input:?}");
    }
}

#[test]
fn build_edits_add_rect_targets_top_cell() {
    let instr = NlInstruction::AddRect {
        layer: LayerId::new(4, 0),
        rect: Rect::new(Point::new(0, 0), Point::new(100, 100)),
    };
    let edits = build_edits(&instr, TOP, &[], &[]);
    assert_eq!(edits.len(), 1);
    match &edits[0] {
        Edit::AddShape { cell, shape } => {
            assert_eq!(cell, TOP);
            assert_eq!(shape.layer, LayerId::new(4, 0));
            assert_eq!(
                rect_of(shape),
                Rect::new(Point::new(0, 0), Point::new(100, 100))
            );
        }
        other => panic!("expected AddShape, got {other:?}"),
    }
}

#[test]
fn build_edits_delete_selected_removes_in_descending_index_order() {
    let a = rect_shape(LayerId::new(4, 0), 0, 0, 10, 10);
    let b = rect_shape(LayerId::new(4, 0), 20, 20, 30, 30);
    let selected = [(2usize, a), (5usize, b)];
    let edits = build_edits(&NlInstruction::DeleteSelected, TOP, &selected, &[]);
    assert_eq!(edits.len(), 2);
    match (&edits[0], &edits[1]) {
        (Edit::RemoveShape { index: i0, .. }, Edit::RemoveShape { index: i1, .. }) => {
            assert_eq!(*i0, 5, "higher index removed first");
            assert_eq!(*i1, 2);
        }
        other => panic!("expected two RemoveShape edits, got {other:?}"),
    }
}

#[test]
fn build_edits_delete_selected_empty_selection_is_empty() {
    let edits = build_edits(&NlInstruction::DeleteSelected, TOP, &[], &[]);
    assert!(edits.is_empty());
}

#[test]
fn build_edits_move_removes_then_re_adds_translated() {
    let shape = rect_shape(LayerId::new(4, 0), 0, 0, 100, 100);
    let selected = [(0usize, shape)];
    let instr = NlInstruction::Move { dx: 10, dy: 20 };
    let edits = build_edits(&instr, TOP, &selected, &[]);
    assert_eq!(edits.len(), 2);
    match &edits[0] {
        Edit::RemoveShape { index, .. } => assert_eq!(*index, 0),
        other => panic!("expected RemoveShape first, got {other:?}"),
    }
    match &edits[1] {
        Edit::AddShape { shape, .. } => {
            assert_eq!(
                rect_of(shape),
                Rect::new(Point::new(10, 20), Point::new(110, 120))
            );
        }
        other => panic!("expected AddShape second, got {other:?}"),
    }
}

#[test]
fn build_edits_move_empty_selection_is_empty() {
    let edits = build_edits(&NlInstruction::Move { dx: 5, dy: 5 }, TOP, &[], &[]);
    assert!(edits.is_empty());
}

#[test]
fn build_edits_array_produces_one_add_per_element() {
    let shape = rect_shape(LayerId::new(4, 0), 0, 0, 100, 100);
    let instr = NlInstruction::Array {
        cols: 2,
        rows: 3,
        pitch_x: 1000,
        pitch_y: 500,
    };
    let edits = build_edits(&instr, TOP, &[], std::slice::from_ref(&shape));
    assert_eq!(edits.len(), 6);
    assert!(edits.iter().all(|e| matches!(e, Edit::AddShape { .. })));
}

#[test]
fn build_edits_array_empty_selection_is_empty() {
    let instr = NlInstruction::Array {
        cols: 2,
        rows: 2,
        pitch_x: 100,
        pitch_y: 100,
    };
    let edits = build_edits(&instr, TOP, &[], &[]);
    assert!(edits.is_empty());
}

#[test]
fn grammar_help_mentions_every_verb() {
    for verb in ["add rect", "delete selected", "array", "move"] {
        assert!(
            GRAMMAR_HELP.contains(verb),
            "grammar help should mention {verb:?}"
        );
    }
}

#[test]
fn error_messages_name_the_problem() {
    assert_eq!(
        parse("array 1000x1000 pitch 10 10").unwrap_err().message(),
        "array: 1000000 elements exceeds the 100000 cap"
    );
    assert_eq!(
        parse("frobnicate").unwrap_err().message(),
        "unknown instruction `frobnicate`; try `add rect`, `delete selected`, `array`, or `move`"
    );
    assert_eq!(
        parse("move ten 5").unwrap_err().message(),
        "move: `ten` is not a whole number"
    );
    assert_eq!(
        parse("add rect 4/x 0 0 1 1").unwrap_err().message(),
        "add rect: `4/x` is not a valid layer (expected a layer number or layer/datatype, e.g. `4` or `4/2`)"
    );
    assert_eq!(
        parse("delete").unwrap_err().message(),
        "delete selected: expected `delete selected`"
    );
    assert!(parse("").unwrap_err().message().starts_with("type an instruction"));
}

#[test]
fn dbu_tokens_cover_the_i32_range() {
    assert_eq!(
        parse("move -2147483648 2147483647").unwrap(),
        NlInstruction::Move { dx: i32::MIN, dy: i32::MAX }
    );
    assert_eq!(parse("move +7 -0").unwrap(), NlInstruction::Move { dx: 7, dy: 0 });
    assert!(matches!(
        parse("move 2147483648 0"),
        Err(NlEditError::Malformed { form: "move", .. })
    ));
}

#[test]
fn array_at_the_element_cap_is_accepted() {
    assert_eq!(
        parse("array 100x1000 pitch -5 7").unwrap(),
        NlInstruction::Array { cols: 100, rows: 1000, pitch_x: -5, pitch_y: 7 }
    );
    assert!(matches!(
        parse("array 100x1001 pitch 1 1"),
        Err(NlEditError::OutOfRange { form: "array", .. })
    ));
}

#[test]
fn parse_cols_by_rows_reads_both_counts() {
    assert_eq!(parse_cols_by_rows("12X7").unwrap(), (12, 7));
    assert!(parse_cols_by_rows("12x").is_err());
    assert!(parse_cols_by_rows("4294967296x1").is_err());
}

#[test]
fn build_edits_move_keeps_selection_order_for_the_additions() {
    let a = rect_shape(LayerId::new(4, 0), 0, 0, 10, 10);
    let b = rect_shape(LayerId::new(5, 0), 20, 20, 30, 30);
    let selected = [(1usize, a), (3usize, b)];
    let edits = build_edits(&NlInstruction::Move { dx: -1, dy: 2 }, TOP, &selected, &[]);
    assert_eq!(edits.len(), 4);
    let removed: Vec<usize> = edits[..2]
        .iter()
        .map(|e| match e {
            Edit::RemoveShape { index, .. } => *index,
            other => panic!("expected RemoveShape, got {other:?}"),
        })
        .collect();
    assert_eq!(removed, vec![3, 1]);
    match (&edits[2], &edits[3]) {
        (Edit::AddShape { shape: s0, .. }, Edit::AddShape { shape: s1, .. }) => {
            assert_eq!(s0.layer, LayerId::new(4, 0));
            assert_eq!(rect_of(s0), Rect::new(Point::new(-1, 2), Point::new(9, 12)));
            assert_eq!(s1.layer, LayerId::new(5, 0));
            assert_eq!(rect_of(s1), Rect::new(Point::new(19, 22), Point::new(29, 32)));
        }
        other => panic!("expected two AddShape edits, got {other:?}"),
    }
}

#[test]
fn build_edits_array_uses_x_pitch_for_columns() {
    let shape = rect_shape(LayerId::new(4, 0), 0, 0, 100, 100);
    let instr = NlInstruction::Array { cols: 2, rows: 2, pitch_x: 1000, pitch_y: 500 };
    let edits = build_edits(&instr, TOP, &[], std::slice::from_ref(&shape));
    let mins: Vec<Point> = edits
        .iter()
        .map(|e| match e {
            Edit::AddShape { shape, .. } => rect_of(shape).min,
            other => panic!("expected AddShape, got {other:?}"),
        })
        .collect();
    assert_eq!(
        mins,
        vec![Point::new(0, 0), Point::new(1000, 0), Point::new(0, 500), Point::new(1000, 500)]
    );
}
