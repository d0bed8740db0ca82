use reticle_app::open::DocFormat;
use reticle_app::startscreen::{
    gallery, recent_key, ExampleChip, GalleryAction, GalleryCard, RecentFile, RecentPins,
};

#[test]
fn all_bundled_examples_are_gds_today() {
    for chip in ExampleChip::ALL {
        assert_eq!(chip.format(), DocFormat::Gds);
    }
}

#[test]
fn from_e2e_id_maps_the_examples_guard_ids() {
    assert_eq!(
        ExampleChip::from_e2e_id("tt03"),
        Some(ExampleChip::TinyTapeoutMin)
    );
    assert_eq!(
        ExampleChip::from_e2e_id("TinyTapeout"),
        Some(ExampleChip::TinyTapeoutMin)
    );
    assert_eq!(
        ExampleChip::from_e2e_id("sky130"),
        Some(ExampleChip::Sky130Inverter)
    );
    assert_eq!(ExampleChip::from_e2e_id("nope"), None);
    assert_eq!(ExampleChip::from_e2e_id(""), None);
}

#[test]
fn gallery_cards_carry_full_metadata_and_landmarks() {
    assert!(
        !gallery().is_empty(),
        "the gallery offers at least one design"
    );
    for card in gallery() {
        for field in [
            card.title,
            card.description,
            card.technology,
            card.size,
            card.source,
            card.license,
        ] {
            assert!(!field.is_empty(), "{} has a blank field", card.title);
            // Style gate: no em dash in any gallery copy.
            assert!(!field.contains('\u{2014}'), "{} has an em dash", card.title);
        }
        assert!(
            !card.landmarks.is_empty(),
            "{} lists at least one landmark (catalog 96)",
            card.title
        );
        for lm in card.landmarks {
            assert!(!lm.name.is_empty() && !lm.detail.is_empty());
            assert!(!lm.detail.contains('\u{2014}'));
        }
    }
    // Exactly one streaming card, and it opens an archive URL, not an example.
    let cards = gallery();
    let streaming: Vec<&GalleryCard> = cards.iter().filter(|c| c.streaming).collect();
    assert_eq!(streaming.len(), 1, "one streaming demo is offered");
    assert!(
        matches!(streaming[0].action, GalleryAction::Archive(_)),
        "a streaming card opens an archive"
    );
}

#[test]
fn recent_pins_toggle_and_float_pinned_entries_first() {
    let recent = [
        RecentFile::local("newest.gds", 2048),
        RecentFile::remote("mid.gds", 1024, "https://example.test/mid.gds"),
        RecentFile::local("oldest.gds", 512),
    ];
    let mut pins = RecentPins::new();
    // Nothing pinned: order is unchanged (most-recent-first).
    let order: Vec<&str> = pins
        .order(&recent)
        .iter()
        .map(|r| r.name.as_str())
        .collect();
    assert_eq!(order, ["newest.gds", "mid.gds", "oldest.gds"]);

    // Pin the oldest (by key): it floats to the top; the rest keep their order.
    assert!(pins.toggle(recent_key(&recent[2])), "toggling pins it");
    assert!(pins.is_pinned("oldest.gds"));
    let order: Vec<&str> = pins
        .order(&recent)
        .iter()
        .map(|r| r.name.as_str())
        .collect();
    assert_eq!(order, ["oldest.gds", "newest.gds", "mid.gds"]);

    // The remote entry pins by its URL key, and toggling again unpins.
    let mid_key = recent_key(&recent[1]).to_owned();
    assert!(pins.toggle(&mid_key));
    assert!(pins.is_pinned("https://example.test/mid.gds"));
    assert!(!pins.toggle(&mid_key), "toggling again unpins");
    assert!(!pins.is_pinned("https://example.test/mid.gds"));
}

#[test]
fn chip_copy_and_ids_are_stable() {
    assert_eq!(ExampleChip::ALL.len(), 2);
    assert_eq!(ExampleChip::ALL[0].title(), "Tiny Tapeout sample");
    assert_eq!(ExampleChip::Sky130Inverter.attribution(), "SkyWater SKY130, Apache-2.0");
    assert_eq!(ExampleChip::from_e2e_id("  INV1 "), Some(ExampleChip::Sky130Inverter));
    assert_eq!(ExampleChip::from_e2e_id("tt 03"), None);
}

#[test]
fn pinning_every_entry_keeps_recency_order() {
    let recent = [
        RecentFile::local("a.gds", 1),
        RecentFile::local("b.gds", 2),
        RecentFile::remote("c.gds", 3, "https://x/c.gds"),
    ];
    let mut pins = RecentPins::new();
    for r in &recent {
        assert!(pins.toggle(recent_key(r)));
    }
    let order: Vec<&str> = pins.order(&recent).iter().map(|r| r.name.as_str()).collect();
    assert_eq!(order, ["a.gds", "b.gds", "c.gds"]);
    assert!(!pins.is_pinned("c.gds"));
}

#[test]
fn all_chips_are_enumerable_with_distinct_titles() {
    assert_eq!(ExampleChip::ALL.len(), 2);
    let mut titles: Vec<&str> = ExampleChip::ALL.iter().map(|c| c.title()).collect();
    titles.sort_unstable();
    titles.dedup();
    assert_eq!(titles.len(), 2, "titles are distinct");
    for chip in ExampleChip::ALL {
        assert!(!chip.title().is_empty());
        assert!(!chip.description().is_empty());
        assert!(!chip.attribution().is_empty());
        // Style gate: no em dash in any gallery copy.
        assert!(!chip.title().contains('\u{2014}'));
        assert!(!chip.description().contains('\u{2014}'));
        assert!(!chip.attribution().contains('\u{2014}'));
    }
}
