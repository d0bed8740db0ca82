use reticle_app::share::{
    emit_permalink_params, parse_permalink_params, PermalinkParams, archive_url_from_query, emit_archive_link, minted_room_id, parse_e2e_edit,
    parse_e2e_replay_autoplay, parse_embed, parse_viewer_query, room_id, room_link, viewer_link,
    viewer_ws_link, DEFAULT_SERVER,
};

#[test]
fn default_server_and_demo_room_compose() {
    assert_eq!(room_link("", "CHIP_TOP"), "ws://127.0.0.1:3030/ws/chip_top");
    assert_eq!(
        room_link("   ", "CHIP_TOP"),
        "ws://127.0.0.1:3030/ws/chip_top"
    );
}

#[test]
fn bare_host_gets_the_ws_scheme() {
    assert_eq!(
        room_link("relay.lab:9000", "top"),
        "ws://relay.lab:9000/ws/top"
    );
}

#[test]
fn http_schemes_map_to_websocket_schemes() {
    assert_eq!(
        room_link("http://relay.lab", "top"),
        "ws://relay.lab/ws/top"
    );
    assert_eq!(
        room_link("https://relay.lab", "top"),
        "wss://relay.lab/ws/top"
    );
    // Explicit WebSocket schemes are kept as-is.
    assert_eq!(room_link("ws://r:1", "top"), "ws://r:1/ws/top");
    assert_eq!(room_link("wss://r:1", "top"), "wss://r:1/ws/top");
}

#[test]
fn trailing_slashes_are_dropped() {
    assert_eq!(room_link("ws://relay.lab/", "top"), "ws://relay.lab/ws/top");
    assert_eq!(room_link("relay.lab//", "top"), "ws://relay.lab/ws/top");
}

#[test]
fn room_ids_sanitize_to_path_segments() {
    assert_eq!(room_id("My Fancy Layout!"), "my-fancy-layout");
    assert_eq!(room_id("CHIP_TOP"), "chip_top");
    assert_eq!(room_id("a  b\tc"), "a-b-c");
    assert_eq!(room_id("sram-64x32"), "sram-64x32");
    assert_eq!(room_id("  spaced  "), "spaced");
    assert_eq!(room_id("!!!"), "layout", "all-junk falls back");
    assert_eq!(room_id(""), "layout");
    // Runs of junk collapse to one dash, and edge dashes are trimmed.
    assert_eq!(room_id("--a//b--"), "a-b");
}

#[test]
fn room_id_is_idempotent() {
    for name in ["My Fancy Layout!", "CHIP_TOP", "!!!", "a b", "x"] {
        let once = room_id(name);
        assert_eq!(room_id(&once), once, "sanitizing {name:?} twice");
    }
}

#[test]
fn viewer_link_carries_view_room_and_relay() {
    // A colon in the relay host is legal in a query value and left as-is; the
    // room is sanitized and `view=viewer` marks the read-only page.
    let link = viewer_link("https://reticle.example", "relay.lab:9000", "CHIP_TOP");
    assert_eq!(
        link,
        "https://reticle.example/?view=viewer&room=chip_top&relay=relay.lab:9000"
    );
}

#[test]
fn viewer_link_with_empty_page_is_a_relative_query() {
    // No page origin: a relative query so it resolves against the loaded bundle.
    let link = viewer_link("", "", "top");
    assert_eq!(link, "?view=viewer&room=top&relay=127.0.0.1:3030");
}

#[test]
fn viewer_link_encodes_reserved_query_characters() {
    // A relay spec carrying reserved query characters is percent-encoded so the
    // link stays parseable, and decodes back exactly.
    let link = viewer_link("", "ws://h?a=b&c=d", "top");
    assert!(
        link.contains("relay=ws://h%3Fa%3Db%26c%3Dd"),
        "reserved characters must be encoded: {link}"
    );
    let query = link.trim_start_matches('?');
    let target = parse_viewer_query(query).expect("viewer query");
    assert_eq!(target.relay, "ws://h?a=b&c=d", "relay decodes back exactly");
}

#[test]
fn viewer_ws_link_appends_the_read_only_flag() {
    assert_eq!(
        viewer_ws_link("relay.lab:9000", "top"),
        "ws://relay.lab:9000/ws/top?mode=view"
    );
    // Scheme mapping from room_link is preserved before the flag.
    assert_eq!(
        viewer_ws_link("https://relay.lab", "CHIP_TOP"),
        "wss://relay.lab/ws/chip_top?mode=view"
    );
}

#[test]
fn parse_viewer_query_round_trips_viewer_link() {
    // The query produced by viewer_link parses back to the same room and relay.
    let link = viewer_link("https://reticle.example", "relay.lab:9000", "CHIP_TOP");
    let query = link.split_once('?').expect("link has a query").1;
    let target = parse_viewer_query(query).expect("a viewer query");
    assert_eq!(target.room, "chip_top");
    assert_eq!(target.relay, "relay.lab:9000");
}

#[test]
fn parse_viewer_query_tolerates_leading_question_mark_and_defaults_relay() {
    // A leading '?' (as in location.search) is fine; a missing relay defaults.
    let target = parse_viewer_query("?view=viewer&room=top").expect("viewer query");
    assert_eq!(target.room, "top");
    assert_eq!(target.relay, DEFAULT_SERVER);
}

#[test]
fn parse_viewer_query_rejects_non_viewer_links() {
    // Not a viewer view: the editor/replay start views are not viewer targets.
    assert!(parse_viewer_query("view=editor&room=top").is_none());
    assert!(parse_viewer_query("view=replay").is_none());
    // Viewer view but no `room` key at all: not a target.
    assert!(parse_viewer_query("view=viewer").is_none());
    assert!(parse_viewer_query("view=viewer&relay=r:1").is_none());
    // No view at all.
    assert!(parse_viewer_query("room=top&relay=r:1").is_none());
}

#[test]
fn parse_viewer_query_maps_empty_or_junk_room_to_the_fallback() {
    // A present `room` key with an empty or all-junk value sanitizes to the same
    // fallback `room_id` uses, so the viewer still lands in a valid room.
    for q in ["view=viewer&room=", "view=viewer&room=!!!"] {
        let target = parse_viewer_query(q).expect("viewer query");
        assert_eq!(target.room, "layout", "for {q:?}");
        assert_eq!(target.room, room_id(""));
    }
}

#[test]
fn minted_room_id_is_deterministic_valid_and_varies_by_seed() {
    let a = minted_room_id("CHIP_TOP", 42);
    // Deterministic in (base, seed).
    assert_eq!(a, minted_room_id("CHIP_TOP", 42));
    // A valid, idempotent room id.
    assert_eq!(room_id(&a), a, "minted id is already a room id");
    assert!(!a.is_empty());
    // Different seeds yield different rooms.
    assert_ne!(a, minted_room_id("CHIP_TOP", 43));
    // An empty/junk base still mints a usable room.
    let j = minted_room_id("!!!", 7);
    assert_eq!(room_id(&j), j);
    assert!(!j.is_empty());
}

#[test]
fn parse_e2e_edit_reads_the_flag() {
    assert!(parse_e2e_edit("e2e-edit=1"));
    assert!(parse_e2e_edit("?share=1&e2e-edit=1"));
    assert!(parse_e2e_edit("e2e-edit=true"));
    assert!(!parse_e2e_edit("e2e-edit=0"));
    assert!(!parse_e2e_edit("share=1"));
    assert!(!parse_e2e_edit(""));
    // Not a partial-key match.
    assert!(!parse_e2e_edit("e2eedit=1"));
}

#[test]
fn parse_e2e_replay_autoplay_reads_the_flag() {
    assert!(parse_e2e_replay_autoplay("e2e-autoplay=1"));
    assert!(parse_e2e_replay_autoplay("?view=replay&e2e-autoplay=1"));
    assert!(parse_e2e_replay_autoplay("e2e-autoplay=true"));
    assert!(!parse_e2e_replay_autoplay("e2e-autoplay=0"));
    assert!(!parse_e2e_replay_autoplay("view=replay"));
    assert!(!parse_e2e_replay_autoplay(""));
    // Not a partial-key match.
    assert!(!parse_e2e_replay_autoplay("e2eautoplay=1"));
}

#[test]
fn parse_embed_reads_the_flag() {
    assert!(parse_embed("embed=1"));
    assert!(parse_embed("?archive=https://host/c.rtla&embed=1"));
    assert!(parse_embed("embed=true"));
    assert!(!parse_embed("embed=0"));
    assert!(!parse_embed("view=viewer"));
    assert!(!parse_embed(""));
    // Not a partial-key match.
    assert!(!parse_embed("embedded=1"));
}

#[test]
fn archive_url_from_query_reads_the_parameter() {
    assert_eq!(
        archive_url_from_query("?archive=https://host/chip.rtla"),
        Some("https://host/chip.rtla".to_owned())
    );
    // Works without the leading '?', among other params, and in any position.
    assert_eq!(
        archive_url_from_query("view=editor&archive=http://h/c.rtla"),
        Some("http://h/c.rtla".to_owned())
    );
    // Not a partial-key match: `archives=` is not `archive=`.
    assert_eq!(archive_url_from_query("archives=http://h/c.rtla"), None);
}

#[test]
fn archive_url_from_query_absent_or_empty_is_none() {
    assert_eq!(archive_url_from_query("?view=editor"), None);
    assert_eq!(archive_url_from_query(""), None);
    assert_eq!(archive_url_from_query("?archive="), None);
    // A value that is only encoded whitespace trims to empty and is rejected.
    assert_eq!(archive_url_from_query("?archive=%20%20"), None);
}

#[test]
fn archive_link_round_trips_through_the_query() {
    // emit -> parse is the identity on the archive URL, including one carrying the
    // reserved query characters `?`, `&`, and `#` that must be encoded to survive.
    for url in [
        "http://localhost:8788/fixture.rtla",
        "https://cdn.example/dies/chip.rtla?v=2#frag",
        "https://h/a b&c=d.rtla",
    ] {
        let link = emit_archive_link("https://reticle.example", url);
        assert!(
            link.starts_with("https://reticle.example/?archive="),
            "base joined: {link}"
        );
        let query = link.split_once('?').expect("link has a query").1;
        assert_eq!(
            archive_url_from_query(query).as_deref(),
            Some(url),
            "round trip via {link}"
        );
    }
}

#[test]
fn archive_link_with_empty_page_is_a_relative_query() {
    let link = emit_archive_link("", "http://localhost:8788/fixture.rtla");
    assert!(link.starts_with("?archive="), "relative query: {link}");
    assert_eq!(
        archive_url_from_query(link.trim_start_matches('?')).as_deref(),
        Some("http://localhost:8788/fixture.rtla")
    );
}

/// A permalink with its camera read as numbers, as the app holds it.
#[derive(Clone, PartialEq, Debug, Default)]
struct Permalink {
    cell: Option<String>,
    camera: Option<(f64, f64, f64)>,
    layers: Option<Vec<(u16, u16)>>,
}

fn camera_of(text: &str) -> Option<(f64, f64, f64)> {
    let mut parts = text.split(',');
    let x = parts.next()?.trim().parse::<f64>().ok()?;
    let y = parts.next()?.trim().parse::<f64>().ok()?;
    let zoom = parts.next()?.trim().parse::<f64>().ok()?;
    if parts.next().is_some() {
        return None;
    }
    if x.is_finite() && y.is_finite() && zoom.is_finite() {
        Some((x, y, zoom))
    } else {
        None
    }
}

fn parse_permalink(query: &str) -> Permalink {
    let params = parse_permalink_params(query);
    let mut camera = None;
    for v in &params.views {
        if let Some(c) = camera_of(v) {
            camera = Some(c);
        }
    }
    Permalink { cell: params.cell, camera, layers: params.layers }
}

fn emit_permalink(base_page: &str, gds: Option<&str>, p: &Permalink) -> String {
    let params = PermalinkParams {
        cell: p.cell.clone(),
        views: p.camera.iter().map(|(x, y, z)| format!("{x},{y},{z}")).collect(),
        layers: p.layers.clone(),
    };
    emit_permalink_params(base_page, gds, &params)
}

fn session_permalink(
    cell: Option<&str>,
    camera: (f64, f64, f64),
    visible_layers: &[(u16, u16)],
) -> Permalink {
    Permalink {
        cell: cell.filter(|c| !c.is_empty()).map(str::to_owned),
        camera: Some(camera),
        layers: Some(visible_layers.to_vec()),
    }
}

#[test]
fn permalink_round_trips_cell_camera_and_layers() {
    let p = Permalink {
        cell: Some("my cell µ".to_owned()),
        camera: Some((1000.0, -500.0, 0.25)),
        layers: Some(vec![(68, 20), (69, 20)]),
    };
    let url = emit_permalink("", None, &p);
    let query = url.trim_start_matches('?');
    assert_eq!(parse_permalink(query), p, "round trip via {url}");
}

#[test]
fn permalink_emit_includes_gds_and_a_page_base() {
    let p = Permalink { cell: Some("TOP".to_owned()), camera: None, layers: None };
    let url = emit_permalink("https://reticle.example", Some("https://h/c.gds"), &p);
    assert!(url.starts_with("https://reticle.example/?"), "base joined: {url}");
    assert!(url.contains("gds=https%3A%2F%2Fh%2Fc.gds"), "gds encoded: {url}");
    assert!(url.contains("cell=TOP"), "cell present: {url}");
    let query = url.split_once('?').expect("query").1;
    assert_eq!(parse_permalink(query).cell.as_deref(), Some("TOP"));
}

#[test]
fn permalink_camera_is_disambiguated_from_the_start_view_selector() {
    let cam = parse_permalink("view=1000,-500,0.25").camera;
    assert_eq!(cam, Some((1000.0, -500.0, 0.25)));
    for q in ["view=editor", "view=viewer", "view=replay"] {
        assert_eq!(parse_permalink(q).camera, None, "for {q:?}");
    }
}

#[test]
fn permalink_parses_a_layer_csv_and_hides_all_on_empty() {
    assert_eq!(parse_permalink("layers=68/20,69/20").layers, Some(vec![(68, 20), (69, 20)]));
    assert_eq!(parse_permalink("layers=").layers, Some(vec![]));
    assert_eq!(parse_permalink("cell=TOP").layers, None);
}

#[test]
fn permalink_ignores_malformed_values_without_panicking() {
    assert_eq!(parse_permalink("view=abc").camera, None);
    assert_eq!(parse_permalink("view=1,2").camera, None);
    assert_eq!(parse_permalink("view=1,2,3,4").camera, None);
    assert_eq!(
        parse_permalink("layers=68/20,junk,99,70/5,999999/0").layers,
        Some(vec![(68, 20), (70, 5)])
    );
    let p = parse_permalink("?cell=&view=&layers=&bogus");
    assert_eq!(p.cell, None);
    assert_eq!(p.camera, None);
    assert_eq!(p.layers, Some(vec![]));
}

#[test]
fn session_permalink_captures_cell_camera_and_visible_layers() {
    let p = session_permalink(Some("TOP"), (10.0, -20.0, 0.5), &[(68, 20), (69, 20)]);
    assert_eq!(p.cell.as_deref(), Some("TOP"));
    assert_eq!(p.camera, Some((10.0, -20.0, 0.5)));
    assert_eq!(p.layers, Some(vec![(68, 20), (69, 20)]));
    let none = session_permalink(Some(""), (0.0, 0.0, 1.0), &[]);
    assert_eq!(none.cell, None);
    assert_eq!(none.layers, Some(vec![]));
    let url = emit_permalink("", None, &p);
    assert_eq!(parse_permalink(url.trim_start_matches('?')), p);
}

#[test]
fn permalink_absent_fields_emit_no_keys() {
    let empty = emit_permalink("", None, &Permalink::default());
    assert_eq!(empty, "", "an empty permalink with no gds emits nothing");
    let cam_only = emit_permalink(
        "",
        None,
        &Permalink { cell: None, camera: Some((0.0, 0.0, 1.0)), layers: None },
    );
    assert_eq!(cam_only, "?view=0,0,1");
}

#[test]
fn permalink_params_keep_every_view_text_in_order() {
    let p = parse_permalink_params("view=editor&cell=A%20B&view=1,2,3&layers=1/2&layers=3/4");
    assert_eq!(p.views, vec!["editor".to_string(), "1,2,3".to_string()]);
    assert_eq!(p.cell.as_deref(), Some("A B"));
    assert_eq!(p.layers, Some(vec![(3, 4)]));
    let link = emit_permalink_params("https://x.example//", None, &p);
    assert_eq!(link, "https://x.example/?cell=A%20B&view=editor&view=1,2,3&layers=3/4");
    assert_eq!(parse_permalink_params(link.split_once('?').unwrap().1), p);
}

#[test]
fn parse_viewer_query_round_trips_a_non_ascii_relay() {
    let link = viewer_link("", " é:1 ", "Café Top");
    let query = link.split_once('?').unwrap().1;
    let target = parse_viewer_query(query).expect("a viewer link");
    assert_eq!(target.relay, "é:1");
    assert_eq!(target.room, room_id("Café Top"));
    let link = viewer_link("https://page", "wss://h/ü?a=b&c", "x");
    let target = parse_viewer_query(link.split_once('?').unwrap().1).unwrap();
    assert_eq!(target.relay, "wss://h/ü?a=b&c");
}

#[test]
fn room_ids_have_the_documented_shape() {
    for name in ["My Fancy Layout!", "--a//b--", "!!!", "", "___", "Ünïcode"] {
        let r = room_id(name);
        assert!(!r.is_empty());
        assert!(r.chars().all(|c| c.is_ascii_lowercase() || c.is_ascii_digit() || c == '_' || c == '-'));
        assert!(!r.starts_with('-') && !r.ends_with('-'));
        assert_eq!(room_id(&r), r);
    }
    assert_eq!(room_id("!!!"), "layout");
    assert_eq!(room_id("--//--"), "layout");
}

#[test]
fn minted_room_ids_keep_the_seed_suffix() {
    for (base, seed) in [("Chip Top", 12345u64), ("!!!", 0), ("a--", u64::MAX), ("", 36)] {
        let id = minted_room_id(base, seed);
        let digits: String = {
            let mut n = seed;
            (0..6)
                .map(|_| {
                    let d = (n % 36) as u8;
                    n /= 36;
                    if d < 26 { (b'a' + d) as char } else { (b'0' + d - 26) as char }
                })
                .collect()
        };
        assert!(id.ends_with(&digits), "{id} ends with {digits}");
    }
}

#[test]
fn archive_link_splits_back_to_its_archive() {
    for page in ["", "https://viewer.example/", "  https://v.example//  "] {
        let link = emit_archive_link(page, " https://host/a b?c=1 ");
        let query = link.split_once('?').unwrap().1;
        assert_eq!(archive_url_from_query(query), Some("https://host/a b?c=1".to_owned()));
    }
}

#[test]
fn minted_rooms_differ_exactly_by_the_seed_modulo_the_suffix_range() {
    let range: u64 = 36 * 36 * 36 * 36 * 36 * 36;
    assert_eq!(minted_room_id("CHIP_TOP", 5), minted_room_id("CHIP_TOP", 5 + range));
    assert_ne!(minted_room_id("CHIP_TOP", 0), minted_room_id("CHIP_TOP", range / 36));
    assert_ne!(minted_room_id("CHIP_TOP", 1), minted_room_id("CHIP_TOP", 2));
}
