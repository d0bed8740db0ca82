use reticle_app::overlay::Anchor;

#[test]
fn anchors_name_their_edges() {
    assert!(Anchor::TopLeft.is_top() && Anchor::TopLeft.is_left());
    assert!(Anchor::TopRight.is_top() && !Anchor::TopRight.is_left());
    assert!(!Anchor::BottomLeft.is_top() && Anchor::BottomLeft.is_left());
    assert!(!Anchor::BottomRight.is_top() && !Anchor::BottomRight.is_left());
}
