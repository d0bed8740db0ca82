use reticle_app::review_panel::{review_action_id, thread_title, ReviewPanel};

#[test]
fn review_action_ids_are_unique_per_thread_and_sequence() {
    assert_ne!(review_action_id(0, 0, 5), review_action_id(1, 0, 5));
    assert_ne!(review_action_id(0, 0, 5), review_action_id(0, 1, 5));
    assert_eq!(review_action_id(2, 3, 7), "review-2-3-7");
}

#[test]
fn review_action_ids_carry_negative_and_extreme_times() {
    assert_eq!(review_action_id(0, 12, -40), "review-0-12--40");
    assert_eq!(
        review_action_id(u64::MAX, 0, i64::MIN),
        "review-18446744073709551615-0--9223372036854775808"
    );
}

#[test]
fn thread_title_carries_anchor_and_single_line_body() {
    let title = thread_title("TOP/shape-3", "line one\nline two");
    assert!(title.contains("@TOP/shape-3"));
    assert!(title.contains("line one line two"));
    assert!(!title.contains('\n'));
    assert_eq!(title, "@TOP/shape-3  line one line two");
}

#[test]
fn review_panel_toggles_and_numbers_its_actions() {
    let mut panel = ReviewPanel::default();
    assert!(!panel.open);
    assert_eq!(panel.author(), "you");
    panel.toggle();
    assert!(panel.open);
    let first = panel.next_action_id(1, 500);
    let second = panel.next_action_id(1, 500);
    assert_eq!(first, "review-0-1-500");
    assert_eq!(second, "review-1-1-500");
    panel.toggle();
    assert!(!panel.open);
}
