use reticle_app::onboarding::{Checklist, Hint, Hints, Task};

#[test]
fn a_hint_fires_exactly_once() {
    let mut hints = Hints::default();
    assert_eq!(hints.fire(Hint::Layers), Some(Hint::Layers));
    // Second time it is silent.
    assert_eq!(hints.fire(Hint::Layers), None);
    assert!(hints.is_seen(Hint::Layers));
    // Independent hints are unaffected.
    assert!(!hints.is_seen(Hint::Drc));
    assert_eq!(hints.fire(Hint::Drc), Some(Hint::Drc));
}

#[test]
fn mark_seen_reports_change() {
    let mut hints = Hints::default();
    assert!(hints.mark_seen(Hint::Share), "first mark changes state");
    assert!(!hints.mark_seen(Hint::Share), "second mark is a no-op");
}

#[test]
fn hints_round_trip_through_tags() {
    let mut hints = Hints::default();
    hints.mark_seen(Hint::Layers);
    hints.mark_seen(Hint::Share);
    let tags = hints.seen_tags();
    assert_eq!(tags, vec!["layers", "share"]);
    let restored = Hints::from_tags(&tags);
    assert_eq!(restored, hints);
    // Unknown tags are ignored, not fatal.
    let tolerant = Hints::from_tags(&["layers", "wombat"]);
    assert!(tolerant.is_seen(Hint::Layers));
    assert!(!tolerant.is_seen(Hint::Drc));
}

#[test]
fn every_hint_has_copy_and_a_tag() {
    for hint in Hint::ALL {
        assert!(!hint.title().is_empty());
        assert!(!hint.body().is_empty());
        assert_eq!(Hint::from_tag(hint.tag()), Some(hint));
        // The style gate: no em dash in onboarding copy.
        assert!(!hint.title().contains('\u{2014}'));
        assert!(!hint.body().contains('\u{2014}'));
    }
}

#[test]
fn checklist_tracks_progress_and_completion() {
    let mut list = Checklist::default();
    assert_eq!(list.progress(), (0, 4));
    assert!(list.is_visible());
    assert!(list.complete(Task::OpenFile));
    assert!(!list.complete(Task::OpenFile), "idempotent");
    assert_eq!(list.progress(), (1, 4));
    list.complete(Task::RunDrc);
    list.complete(Task::Share);
    assert!(!list.is_complete());
    list.complete(Task::TryAgent);
    assert!(list.is_complete());
    // A complete checklist retires itself.
    assert!(!list.is_visible());
}

#[test]
fn checklist_dismiss_is_sticky() {
    let mut list = Checklist::default();
    list.complete(Task::OpenFile);
    list.dismiss();
    assert!(list.is_dismissed());
    assert!(!list.is_visible(), "a dismissed card never returns");
}

#[test]
fn checklist_round_trips_through_tags() {
    let mut list = Checklist::default();
    list.complete(Task::OpenFile);
    list.complete(Task::Share);
    let tags = list.done_tags();
    assert_eq!(tags, vec!["open", "share"]);
    let restored = Checklist::restore(&tags, false);
    assert_eq!(restored, list);
    // The dismissed bit round-trips independently.
    let dismissed = Checklist::restore(&["drc"], true);
    assert!(dismissed.is_done(Task::RunDrc));
    assert!(dismissed.is_dismissed());
}

#[test]
fn every_task_has_a_label_and_tag() {
    for task in Task::ALL {
        assert!(!task.label().is_empty());
        assert_eq!(Task::from_tag(task.tag()), Some(task));
        assert!(!task.label().contains('\u{2014}'));
    }
}
