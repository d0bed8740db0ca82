use reticle_app::snapshot::{
    emit_snapshot_link, parse_snapshot_query, room_id, snapshot_revision_ws_link,
    snapshot_ws_link, DEFAULT_SERVER,
};

#[test]
fn snapshot_link_round_trips_through_the_query() {
    let link = emit_snapshot_link("https://reticle.example", "relay.lab:9000", "CHIP_TOP", 42);
    assert!(link.starts_with("https://reticle.example/?"), "{link}");
    let query = link.split_once('?').expect("query").1;
    let target = parse_snapshot_query(query).expect("a snapshot target");
    assert_eq!(target.room, "chip_top");
    assert_eq!(target.relay, "relay.lab:9000");
    assert_eq!(target.revision, 42);
}

#[test]
fn snapshot_link_with_empty_page_and_relay_is_relative_and_defaults() {
    let link = emit_snapshot_link("", "", "top", 7);
    // A colon is not a reserved query character (see `encode_query_component`'s
    // doc comment), so it survives unescaped, exactly as
    // `share::viewer_link_carries_view_room_and_relay` expects for the same
    // default relay spec.
    assert_eq!(link, "?view=snapshot&room=top&relay=127.0.0.1:3030&rev=7");
    let target = parse_snapshot_query(link.trim_start_matches('?')).expect("target");
    assert_eq!(target.relay, DEFAULT_SERVER);
    assert_eq!(target.revision, 7);
}

#[test]
fn parse_snapshot_query_rejects_non_snapshot_links() {
    assert!(parse_snapshot_query("view=viewer&room=top&rev=1").is_none());
    assert!(parse_snapshot_query("room=top&rev=1").is_none());
    // A snapshot view with no revision, or a non-numeric one, is not a target:
    // there is nothing to pin without a revision.
    assert!(parse_snapshot_query("view=snapshot&room=top").is_none());
    assert!(parse_snapshot_query("view=snapshot&room=top&rev=nope").is_none());
    // No room at all.
    assert!(parse_snapshot_query("view=snapshot&rev=1").is_none());
}

#[test]
fn snapshot_ws_link_composes_the_relay_route() {
    assert_eq!(
        snapshot_ws_link("relay.lab:9000", "CHIP_TOP", 5),
        "ws://relay.lab:9000/snapshot/chip_top/at/5"
    );
    assert_eq!(
        snapshot_ws_link("https://relay.lab", "top", 0),
        "wss://relay.lab/snapshot/top/at/0"
    );
}

#[test]
fn snapshot_revision_ws_link_composes_the_capture_route() {
    assert_eq!(
        snapshot_revision_ws_link("relay.lab:9000", "top"),
        "ws://relay.lab:9000/snapshot/top"
    );
}

#[test]
fn snapshot_room_id_matches_the_live_rule() {
    assert_eq!(room_id("  My Chip!! v2 "), "my-chip-v2");
    assert_eq!(room_id("???"), "layout");
}

#[test]
fn snapshot_query_reads_the_last_value_and_decodes_the_relay() {
    let t = parse_snapshot_query("?view=snapshot&room=a&room=B%20C&relay=%20h%3A1%20&rev=+18446744073709551615")
        .unwrap();
    assert_eq!(t.room, "b-c");
    assert_eq!(t.relay, "h:1");
    assert_eq!(t.revision, u64::MAX);
    assert!(parse_snapshot_query("view=snapshot&room=a&rev=18446744073709551616").is_none());
    assert!(parse_snapshot_query("view=snapshot&room=a&rev=1&rev=x").is_none());
}

#[test]
fn snapshot_link_escapes_reserved_relay_characters() {
    let link = emit_snapshot_link("https://p/", " a b&c ", "r", 3);
    assert_eq!(link, "https://p/?view=snapshot&room=r&relay=a%20b%26c&rev=3");
    let t = parse_snapshot_query(link.split_once('?').unwrap().1).unwrap();
    assert_eq!(t.relay, "a b&c");
}
