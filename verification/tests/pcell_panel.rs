use reticle_app::pcell_panel::PCellPanelState;

#[test]
fn select_ignores_out_of_range_index() {
    let mut state = PCellPanelState::with_ids(&["user.sensor".to_owned()]);
    let before = state.selected();
    state.select(9999);
    assert_eq!(state.selected(), before);
}

#[test]
fn select_moves_within_the_catalog() {
    let ids = vec!["a.one".to_owned(), "b.two".to_owned(), "c.three".to_owned()];
    let mut state = PCellPanelState::with_ids(&ids);
    assert_eq!(state.ids(), ids.as_slice());
    assert_eq!(state.selected(), 0);
    state.select(2);
    assert_eq!(state.selected(), 2);
    state.select(3);
    assert_eq!(state.selected(), 2);
}
