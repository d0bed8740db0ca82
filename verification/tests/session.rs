use reticle_app::session::{parse_session_text, session_text, SessionRecord, Tool};

fn sample() -> SessionRecord {
    SessionRecord {
        center_x: 1234,
        center_y: -5678,
        zoom: "0.125".to_owned(),
        tool: Tool::Measure,
        grid_visible: false,
        snap_enabled: true,
        grid_step: 250,
        theme: "light".to_owned(),
        ui_density: "compact".to_owned(),
        reduced_motion: true,
        hidden_layers: vec![(4, 0), (5, 0)],
        tour_seen: true,
    }
}

#[test]
fn text_round_trips() {
    let s = sample();
    let parsed = parse_session_text(&session_text(&s)).expect("parses");
    assert_eq!(parsed.center_x, s.center_x);
    assert_eq!(parsed.center_y, s.center_y);
    assert_eq!(parsed.zooms, vec![s.zoom.clone()]);
    assert_eq!(parsed.tool, s.tool);
    assert_eq!(parsed.grid_visible, s.grid_visible);
    assert_eq!(parsed.snap_enabled, s.snap_enabled);
    assert_eq!(parsed.grid_step, s.grid_step);
    assert_eq!(parsed.theme.as_deref(), Some("light"));
    assert_eq!(parsed.ui_density.as_deref(), Some("compact"));
    assert_eq!(parsed.reduced_motion, s.reduced_motion);
    assert_eq!(parsed.hidden_layers, s.hidden_layers);
    assert_eq!(parsed.tour_seen, s.tour_seen);
}

#[test]
fn session_text_writes_every_key_in_order() {
    let text = session_text(&sample());
    assert_eq!(
        text,
        "center_x=1234\ncenter_y=-5678\nppd=0.125\ntool=measure\ngrid_visible=false\nsnap=true\ngrid_step=250\ntheme=light\nui_density=compact\nreduced_motion=true\nhidden=4/0,5/0\ntour_seen=true\n"
    );
}

#[test]
fn tour_seen_round_trips_and_defaults_false() {
    let s = SessionRecord { tour_seen: true, ..sample() };
    let parsed = parse_session_text(&session_text(&s)).expect("parses");
    assert!(parsed.tour_seen);
    let older = parse_session_text("center_x=1\n").expect("parses");
    assert!(!older.tour_seen);
    assert!(!older.reduced_motion);
    assert_eq!(older.ui_density, None);
}

#[test]
fn empty_text_is_none() {
    assert!(parse_session_text("").is_none());
    assert!(parse_session_text("   \n  ").is_none());
}

#[test]
fn partial_text_uses_defaults() {
    let s = parse_session_text("center_x=42\ntool=pan\n").expect("parses");
    assert_eq!(s.center_x, 42);
    assert_eq!(s.tool, Tool::Pan);
    assert_eq!(s.center_y, 0);
    assert!(s.grid_visible);
    assert_eq!(s.grid_step, 100);
}

#[test]
fn malformed_lines_are_skipped() {
    let s = parse_session_text("garbage line\ncenter_x=7\n=oops\nppd=notanumber\n").expect("parses");
    assert_eq!(s.center_x, 7);
    // The zoom text is kept as written; reading it as a number is the caller's.
    assert_eq!(s.zooms, vec!["notanumber".to_owned()]);
}

#[test]
fn unknown_tool_tag_defaults_to_select() {
    let s = parse_session_text("tool=wombat\n").expect("parses");
    assert_eq!(s.tool, Tool::Select);
}

#[test]
fn hidden_layers_parse_and_skip_bad_pairs() {
    let s = parse_session_text("hidden=1/0,2/0,bad,3/,/4\n").expect("parses");
    assert_eq!(s.hidden_layers, vec![(1, 0), (2, 0)]);
}

#[test]
fn retired_light_theme_tag_still_parses() {
    let s = parse_session_text("theme=light\n").expect("parses");
    assert_eq!(s.theme.as_deref(), Some("light"));
}

#[test]
fn out_of_range_numbers_and_crlf_lines() {
    let s = parse_session_text("center_x=99999999999\r\ngrid_step= -20 \r\nsnap=false\r\n").expect("parses");
    assert_eq!(s.center_x, 0);
    assert_eq!(s.grid_step, -20);
    assert!(!s.snap_enabled);
}

#[test]
fn tool_tags_round_trip() {
    for t in [
        Tool::Select,
        Tool::Pan,
        Tool::Measure,
        Tool::CutLine,
        Tool::DrawRect,
        Tool::DrawPolygon,
        Tool::DrawPath,
        Tool::EditVertex,
    ] {
        assert_eq!(Tool::from_tag(t.tag()), t);
    }
}
