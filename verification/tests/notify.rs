use reticle_app::notify::{Connectivity, ConnectivityState, Diagnostic, NotificationAction, Severity, ToastQueue, HISTORY_CAP, MAX_QUEUED};

#[test]
fn diagnostic_clipboard_block_carries_cause_next_step_and_details() {
    // Every failure shows a cause, a next step, and a copyable
    // technical block. The clipboard rendering folds all three into one block a
    // user can paste into a bug report.
    let d = Diagnostic::new(
        "The server did not allow a cross-origin request (CORS).",
        "Host the file with permissive CORS headers, or open it in the desktop app.",
        "GET https://host/chip.gds\nstatus: (opaque)\norigin: https://reticle.example",
    );
    let block = d.clipboard_text();
    assert!(block.contains("CORS"), "cause is present: {block}");
    assert!(block.contains("Next step"), "labels the next step: {block}");
    assert!(
        block.contains("desktop app"),
        "next step text is present: {block}"
    );
    assert!(
        block.contains("status: (opaque)"),
        "the technical details are present: {block}"
    );
    // The block is em-dash free (the style gate) and non-empty.
    assert!(!block.contains('\u{2014}'));
    assert!(d.has_details());
}

#[test]
fn diagnostic_without_details_still_renders_cause_and_next_step() {
    let d = Diagnostic::new("Cause line.", "Do this next.", "");
    assert!(!d.has_details());
    let block = d.clipboard_text();
    assert!(block.contains("Cause line."));
    assert!(block.contains("Do this next."));
}

#[test]
fn actions_have_distinct_nonempty_labels() {
    // A toast can carry action buttons (Retry, Copy details, Undo).
    let all = [
        NotificationAction::Retry,
        NotificationAction::CopyDetails,
        NotificationAction::Undo,
        NotificationAction::Fit,
    ];
    let mut seen = std::collections::HashSet::new();
    for a in all {
        let label = a.label();
        assert!(!label.is_empty());
        assert!(!label.contains('\u{2014}'), "no em-dash in {label}");
        assert!(seen.insert(label), "labels are distinct: {label}");
    }
}

#[test]
fn severity_orders_info_lt_warning_lt_error() {
    assert!(Severity::Info < Severity::Warning);
    assert!(Severity::Warning < Severity::Error);
    // Labels are present, distinct, and em-dash-free (the style gate).
    for s in [Severity::Info, Severity::Warning, Severity::Error] {
        assert!(!s.label().is_empty());
        assert!(!s.label().contains('\u{2014}'));
    }
}

#[test]
fn connectivity_edges_fire_once_per_transition() {
    let mut c = ConnectivityState::new();
    assert!(!c.mark_online(), "already online: no reassurance toast");
    assert!(c.mark_offline(), "online -> offline is an edge");
    assert!(!c.mark_offline(), "no repeat warning while offline");
    assert_eq!(c.badge_label(), Some("Offline"));
    assert!(c.mark_online(), "offline -> online is an edge");
    assert_eq!(c.current(), Connectivity::Online);
    assert_eq!(c.badge_label(), None);
}

#[test]
fn toast_queue_is_bounded_and_keeps_the_newest() {
    let mut q: ToastQueue<String> = ToastQueue::new();
    for i in 0..(MAX_QUEUED + 3) {
        q.push(format!("error {i}"));
    }
    assert_eq!(q.len(), MAX_QUEUED);
    assert_eq!(q.items().last().unwrap(), &format!("error {}", MAX_QUEUED + 2));
    assert!(!q.items().iter().any(|x| x == "error 0"));
    // The trimmed ones were archived, oldest first.
    assert_eq!(q.history(), &["error 0".to_string(), "error 1".to_string(), "error 2".to_string()]);
}

#[test]
fn toast_history_is_bounded_and_keeps_the_newest() {
    let mut q: ToastQueue<usize> = ToastQueue::new();
    for i in 0..(HISTORY_CAP + 10) {
        q.push(i);
        q.expire(&[true]);
    }
    assert!(q.is_empty());
    assert_eq!(q.history().len(), HISTORY_CAP);
    assert_eq!(q.history()[0], 10);
    assert_eq!(*q.history().last().unwrap(), HISTORY_CAP + 9);
    q.clear_history();
    assert!(q.history().is_empty());
}

#[test]
fn toast_dismiss_clear_and_expire_archive_in_order() {
    let mut q: ToastQueue<&str> = ToastQueue::new();
    q.push("first");
    q.push("second");
    q.push("third");
    q.dismiss(0);
    assert_eq!(q.items(), &["second", "third"]);
    q.dismiss(99);
    assert_eq!(q.len(), 2);
    q.push("fourth");
    q.expire(&[false, true, false]);
    assert_eq!(q.items(), &["second", "fourth"]);
    q.replace(0, "second, older");
    q.clear();
    assert!(q.is_empty());
    assert_eq!(q.history(), &["first", "third", "second, older", "fourth"]);
}

#[test]
fn push_returns_the_index_of_the_pushed_toast() {
    let mut q: ToastQueue<u32> = ToastQueue::new();
    assert_eq!(q.push(10), 0);
    assert_eq!(q.push(11), 1);
    for i in 0..10 {
        let at = q.push(100 + i);
        assert_eq!(at, q.len() - 1);
        assert_eq!(q.items()[at], 100 + i);
    }
    assert_eq!(q.len(), MAX_QUEUED);
}

#[test]
fn connectivity_transitions_produce_reconnect_and_offline_toasts() {
    let mut c = ConnectivityState::new();
    assert_eq!(c.current(), Connectivity::Online);
    assert!(c.set_offline().is_some(), "first drop warns");
    assert!(c.set_offline().is_none(), "still offline, no repeat toast");
    assert_eq!(c.current(), Connectivity::Offline);
    let back = c.set_online().expect("reconnect reassures");
    assert_eq!(back.severity, Severity::Info);
    assert!(c.set_online().is_none(), "already online, no repeat toast");
    c.set_offline();
    assert!(c.badge_label().is_some());
    c.set_online();
    assert!(c.badge_label().is_none());
}

#[test]
fn connectivity_notices_carry_their_severity_and_text() {
    let mut c = ConnectivityState::new();
    let down = c.set_offline().unwrap();
    assert_eq!(down.severity, Severity::Warning);
    assert_eq!(down.summary, "You are offline");
    assert_eq!(
        down.detail,
        "Live sharing is paused. Reticle will reconnect automatically when the connection returns."
    );
    let up = c.set_online().unwrap();
    assert_eq!(up.summary, "Reconnected");
    assert_eq!(up.detail, "Live sharing has resumed.");
}
