use reticle_app::settings::{TouchMode, WheelBehavior};

#[test]
fn wheel_tags_round_trip() {
    for w in WheelBehavior::all() {
        assert_eq!(WheelBehavior::from_tag(w.tag()), w);
        assert!(!w.label().is_empty());
    }
}

#[test]
fn wheel_defaults_to_zoom() {
    assert_eq!(WheelBehavior::default(), WheelBehavior::Zoom);
    assert_eq!(WheelBehavior::from_tag("wombat"), WheelBehavior::Zoom);
    assert_eq!(WheelBehavior::from_tag(" PAN "), WheelBehavior::Pan);
}

#[test]
fn touch_tags_round_trip() {
    for m in TouchMode::all() {
        assert_eq!(TouchMode::from_tag(m.tag()), m);
        assert!(!m.label().is_empty());
    }
}

#[test]
fn touch_defaults_to_auto() {
    assert_eq!(TouchMode::default(), TouchMode::Auto);
    assert_eq!(TouchMode::from_tag("nonsense"), TouchMode::Auto);
    assert_eq!(TouchMode::from_tag("ON"), TouchMode::On);
    assert_eq!(TouchMode::from_tag("Off"), TouchMode::Off);
}
