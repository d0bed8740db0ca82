use reticle_app::geom::{LayerId, Point, Rect, ShapeInfo};
use reticle_app::query::{Comparator, LayerLookup, Metric, ParseError, Predicate, Query};

const M1: LayerId = LayerId { layer: 4, datatype: 0 };
const M2: LayerId = LayerId { layer: 5, datatype: 0 };

fn lookup() -> LayerLookup {
    LayerLookup::new(&[("METAL1", M1), ("METAL2", M2)])
}

fn rect_on(layer: LayerId, x0: i32, y0: i32, x1: i32, y1: i32) -> ShapeInfo {
    ShapeInfo::new(layer, Rect::new(Point::new(x0, y0), Point::new(x1, y1)))
}

#[test]
fn parses_layer_predicate() {
    let q = Query::parse("layer:METAL1").unwrap();
    assert_eq!(q.predicates(), &[Predicate::Layer("METAL1".to_owned())]);
}

#[test]
fn parses_all_comparators() {
    let cases = [
        ("width<400", Comparator::Lt, 400),
        ("width<=400", Comparator::Le, 400),
        ("width>400", Comparator::Gt, 400),
        ("width>=400", Comparator::Ge, 400),
        ("width=400", Comparator::Eq, 400),
        ("width==400", Comparator::Eq, 400),
    ];
    for (src, cmp, value) in cases {
        let q = Query::parse(src).unwrap();
        assert_eq!(
            q.predicates(),
            &[Predicate::Metric {
                metric: Metric::Width,
                cmp,
                value,
            }],
            "parsing {src}"
        );
    }
}

#[test]
fn parses_compound_query() {
    let q = Query::parse("layer:METAL1 width<400 area>1000").unwrap();
    assert_eq!(
        q.predicates(),
        &[
            Predicate::Layer("METAL1".to_owned()),
            Predicate::Metric {
                metric: Metric::Width,
                cmp: Comparator::Lt,
                value: 400,
            },
            Predicate::Metric {
                metric: Metric::Area,
                cmp: Comparator::Gt,
                value: 1000,
            },
        ]
    );
}

#[test]
fn parses_area_and_height() {
    let q = Query::parse("area>=1000 height<50").unwrap();
    assert_eq!(
        q.predicates(),
        &[
            Predicate::Metric {
                metric: Metric::Area,
                cmp: Comparator::Ge,
                value: 1000,
            },
            Predicate::Metric {
                metric: Metric::Height,
                cmp: Comparator::Lt,
                value: 50,
            },
        ]
    );
}

#[test]
fn extra_whitespace_is_ignored() {
    let q = Query::parse("   layer:METAL1    width<400  ").unwrap();
    assert_eq!(q.predicates().len(), 2);
}

#[test]
fn empty_query_parses_to_no_predicates() {
    let q = Query::parse("   ").unwrap();
    assert!(q.is_empty());
}

#[test]
fn negative_and_large_values_parse() {
    let q = Query::parse("width>-5 area<=9000000000").unwrap();
    assert_eq!(
        q.predicates(),
        &[
            Predicate::Metric {
                metric: Metric::Width,
                cmp: Comparator::Gt,
                value: -5,
            },
            Predicate::Metric {
                metric: Metric::Area,
                cmp: Comparator::Le,
                value: 9_000_000_000,
            },
        ]
    );
}

#[test]
fn malformed_empty_layer_value_errors() {
    let err = Query::parse("layer:").unwrap_err();
    assert_eq!(
        err,
        ParseError::EmptyValue {
            key: "layer".to_owned()
        }
    );
}

#[test]
fn malformed_empty_cell_value_errors() {
    let err = Query::parse("cell:").unwrap_err();
    assert_eq!(
        err,
        ParseError::EmptyValue {
            key: "cell".to_owned()
        }
    );
}

#[test]
fn malformed_missing_comparator_errors() {
    let err = Query::parse("area1000").unwrap_err();
    assert_eq!(
        err,
        ParseError::MissingComparator {
            token: "area1000".to_owned()
        }
    );
}

#[test]
fn bare_metric_keyword_errors() {
    let err = Query::parse("width").unwrap_err();
    assert_eq!(
        err,
        ParseError::MissingComparator {
            token: "width".to_owned()
        }
    );
}

#[test]
fn malformed_non_numeric_value_errors() {
    let err = Query::parse("area>big").unwrap_err();
    assert_eq!(
        err,
        ParseError::NotANumber {
            metric: "area".to_owned(),
            value: "big".to_owned(),
        }
    );
}

#[test]
fn empty_metric_value_errors_as_not_a_number() {
    let err = Query::parse("width<").unwrap_err();
    assert_eq!(
        err,
        ParseError::NotANumber {
            metric: "width".to_owned(),
            value: String::new(),
        }
    );
}

#[test]
fn unknown_token_errors() {
    let err = Query::parse("color:red").unwrap_err();
    assert_eq!(
        err,
        ParseError::UnknownToken {
            token: "color:red".to_owned()
        }
    );
}

#[test]
fn first_bad_token_wins() {
    // The layer token is valid; the second token is the first failure.
    let err = Query::parse("layer:METAL1 nonsense").unwrap_err();
    assert_eq!(
        err,
        ParseError::UnknownToken {
            token: "nonsense".to_owned()
        }
    );
}

#[test]
fn error_messages_are_human_readable() {
    assert!(
        Query::parse("layer:")
            .unwrap_err()
            .message()
            .contains("needs a value")
    );
    assert!(
        Query::parse("area>big")
            .unwrap_err()
            .message()
            .contains("expects a number")
    );
    assert!(
        Query::parse("nope")
            .unwrap_err()
            .message()
            .contains("unknown term")
    );
}

#[test]
fn matches_layer_predicate_case_insensitively() {
    let q = Query::parse("layer:metal1").unwrap();
    let on_m1 = rect_on(M1, 0, 0, 100, 100);
    let on_m2 = rect_on(M2, 0, 0, 100, 100);
    assert!(q.matches(&on_m1, &lookup(), "TOP"));
    assert!(!q.matches(&on_m2, &lookup(), "TOP"));
}

#[test]
fn unknown_layer_name_matches_nothing() {
    let q = Query::parse("layer:METAL9").unwrap();
    let on_m1 = rect_on(M1, 0, 0, 100, 100);
    assert!(!q.matches(&on_m1, &lookup(), "TOP"));
}

#[test]
fn matches_width_and_area_metrics() {
    // 300 wide, 300 tall => area 90_000.
    let s = rect_on(M1, 0, 0, 300, 300);
    assert!(
        Query::parse("width<400")
            .unwrap()
            .matches(&s, &lookup(), "T")
    );
    assert!(
        !Query::parse("width>400")
            .unwrap()
            .matches(&s, &lookup(), "T")
    );
    assert!(
        Query::parse("area>1000")
            .unwrap()
            .matches(&s, &lookup(), "T")
    );
    assert!(
        Query::parse("area<1000")
            .unwrap()
            .matches(&s, &lookup(), "T")
            .eq(&false)
    );
    assert!(
        Query::parse("height=300")
            .unwrap()
            .matches(&s, &lookup(), "T")
    );
}

#[test]
fn compound_predicates_are_anded() {
    // METAL1, 300x300, area 90_000.
    let s = rect_on(M1, 0, 0, 300, 300);
    // All three hold.
    assert!(
        Query::parse("layer:METAL1 width<400 area>1000")
            .unwrap()
            .matches(&s, &lookup(), "TOP")
    );
    // Width clause fails => whole query fails.
    assert!(
        !Query::parse("layer:METAL1 width<200")
            .unwrap()
            .matches(&s, &lookup(), "TOP")
    );
    // Layer clause fails => whole query fails.
    assert!(
        !Query::parse("layer:METAL2 width<400")
            .unwrap()
            .matches(&s, &lookup(), "TOP")
    );
}

#[test]
fn cell_predicate_scopes_by_top_cell_name() {
    let s = rect_on(M1, 0, 0, 100, 100);
    assert!(
        Query::parse("cell:TOP")
            .unwrap()
            .matches(&s, &lookup(), "TOP")
    );
    assert!(
        Query::parse("cell:top")
            .unwrap()
            .matches(&s, &lookup(), "TOP")
    );
    assert!(
        !Query::parse("cell:LEAF")
            .unwrap()
            .matches(&s, &lookup(), "TOP")
    );
}

#[test]
fn empty_query_matches_nothing() {
    let q = Query::default();
    let s = rect_on(M1, 0, 0, 100, 100);
    assert!(!q.matches(&s, &lookup(), "TOP"));
    assert!(q.select(&[s], &lookup(), "TOP").is_empty());
}

#[test]
fn select_collects_matching_indices_in_order() {
    let shapes = vec![
        rect_on(M1, 0, 0, 300, 300),   // 0: METAL1, small
        rect_on(M2, 0, 0, 300, 300),   // 1: METAL2
        rect_on(M1, 0, 0, 100, 100),   // 2: METAL1, smaller
        rect_on(M1, 0, 0, 5000, 5000), // 3: METAL1, big
    ];
    let hits =
        Query::parse("layer:METAL1 width<=300")
            .unwrap()
            .select(&shapes, &lookup(), "TOP");
    assert_eq!(hits, vec![0, 2]);
}

#[test]
fn select_on_area_threshold() {
    let shapes = vec![
        rect_on(M1, 0, 0, 10, 10),   // area 100
        rect_on(M1, 0, 0, 100, 100), // area 10_000
        rect_on(M1, 0, 0, 40, 40),   // area 1_600
    ];
    let hits = Query::parse("area>1000")
        .unwrap()
        .select(&shapes, &lookup(), "TOP");
    assert_eq!(hits, vec![1, 2]);
}
