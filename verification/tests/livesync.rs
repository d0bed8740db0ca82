use reticle_app::livesync::{backoff_millis, next_backoff, next_backoff_seeded, Link, LinkAction, LinkEvent, LiveStatus, BASE_MS, CAP_MS};

#[test]
fn live_status_transitions_and_labels() {
    let connecting = LiveStatus::default();
    assert_eq!(connecting, LiveStatus::Connecting);
    assert!(!connecting.is_open());
    assert!(!connecting.is_terminal());

    let open = LiveStatus::Open;
    assert!(open.is_open());
    assert!(!open.is_terminal());

    let reconnecting = LiveStatus::Reconnecting { attempt: 3 };
    assert!(!reconnecting.is_open());
    assert!(
        !reconnecting.is_terminal(),
        "a redial is scheduled, not given up"
    );
    assert!(reconnecting.is_reconnecting());
    assert!(
        reconnecting.label().contains('3'),
        "the status line surfaces the attempt count: {}",
        reconnecting.label()
    );
    assert_eq!(reconnecting.failure_reason(), None);

    let closed = LiveStatus::Closed;
    assert!(closed.is_terminal());
    assert!(!closed.is_open());
    assert!(!closed.is_reconnecting());

    let failed = LiveStatus::Failed {
        reason: "dead relay".to_owned(),
    };
    assert!(failed.is_terminal());
    assert!(!failed.is_reconnecting());
    assert_eq!(failed.failure_reason(), Some("dead relay"));
    assert!(failed.label().contains("dead relay"));
}

#[test]
fn backoff_grows_exponentially_until_the_cap() {
    // Each attempt's ceiling (before jitter) doubles the previous one, and the wait
    // always lands in [ceiling/2, ceiling]. Exercise every seed-independent bound.
    let base = BASE_MS;
    let cap = CAP_MS;
    for attempt in 1..=6u32 {
        let ceiling = (base << (attempt - 1)).min(cap);
        let got = next_backoff(attempt).as_millis() as u64;
        assert!(
            got >= ceiling / 2 && got <= ceiling,
            "attempt {attempt}: {got}ms not within [{}, {ceiling}]ms",
            ceiling / 2
        );
    }
    // Attempt 1 and the degenerate attempt 0 share the base ceiling.
    for attempt in [0u32, 1] {
        let got = next_backoff(attempt).as_millis() as u64;
        assert!(got >= base / 2 && got <= base);
    }
}

#[test]
fn backoff_is_clamped_to_the_cap_and_never_overflows() {
    let cap = CAP_MS;
    // Well past the point the ceiling reaches the cap (base 500ms doubles to >30s by
    // attempt 7), and at an absurd attempt that would overflow a naive shift.
    for attempt in [7u32, 20, 1_000, u32::MAX] {
        let got = next_backoff_seeded(attempt, 0xDEAD_BEEF).as_millis() as u64;
        assert!(
            got >= cap / 2 && got <= cap,
            "attempt {attempt}: {got}ms not within [{}, {cap}]ms",
            cap / 2
        );
    }
}

#[test]
fn backoff_jitter_is_deterministic_and_seed_dependent() {
    // Same (attempt, seed) always yields the same wait (a clock-free, reproducible
    // schedule), while different seeds spread the jitter so clients de-correlate.
    for attempt in 1..=8u32 {
        assert_eq!(
            next_backoff_seeded(attempt, 42),
            next_backoff_seeded(attempt, 42),
            "attempt {attempt} must be reproducible for a fixed seed"
        );
    }
    // At an attempt with real jitter room (attempt 3: ceiling 2000ms, half 1000ms),
    // at least one seed pair must differ, proving the seed actually perturbs jitter.
    let differs =
        (0..64u64).any(|seed| next_backoff_seeded(3, seed) != next_backoff_seeded(3, 0));
    assert!(differs, "the seed must move the jittered wait");

    // next_backoff delegates to the zero seed.
    for attempt in 0..=8u32 {
        assert_eq!(next_backoff(attempt), next_backoff_seeded(attempt, 0));
    }
}

#[test]
fn link_dials_wires_and_resets_on_open() {
    let mut link = Link::new(7);
    assert_eq!(link.step(LinkEvent::Dial), LinkAction::Connect);
    assert_eq!(link.step(LinkEvent::Created), LinkAction::Wire { generation: 1 });
    assert_eq!(
        link.step(LinkEvent::Opened { generation: 1 }),
        LinkAction::Post { status: LiveStatus::Open }
    );
    assert_eq!(link.attempt(), 0);
}

#[test]
fn link_retries_once_per_lost_socket_with_backoff() {
    let mut link = Link::new(7);
    link.step(LinkEvent::Dial);
    link.step(LinkEvent::Created);
    let action = link.step(LinkEvent::Dropped { generation: 1 });
    assert_eq!(action, LinkAction::Retry { attempt: 1, delay_millis: backoff_millis(1, 7) });
    // The close that follows the error on the same socket is stale.
    assert_eq!(link.step(LinkEvent::Dropped { generation: 1 }), LinkAction::Nothing);
    assert_eq!(link.step(LinkEvent::Opened { generation: 1 }), LinkAction::Nothing);
    // The redial gets a fresh generation; its loss is attempt 2.
    assert_eq!(link.step(LinkEvent::Dial), LinkAction::Connect);
    assert_eq!(link.step(LinkEvent::Created), LinkAction::Wire { generation: 3 });
    match link.step(LinkEvent::Dropped { generation: 3 }) {
        LinkAction::Retry { attempt, delay_millis } => {
            assert_eq!(attempt, 2);
            assert!((500..=1000).contains(&delay_millis));
        }
        other => panic!("expected a retry, got {other:?}"),
    }
}

#[test]
fn link_refusal_fails_and_cancel_is_final() {
    let mut link = Link::new(0);
    assert_eq!(
        link.step(LinkEvent::Refused { reason: "bad url".to_owned() }),
        LinkAction::Post { status: LiveStatus::Failed { reason: "bad url".to_owned() } }
    );
    assert_eq!(link.step(LinkEvent::Cancel), LinkAction::Teardown);
    assert!(link.is_cancelled());
    assert_eq!(link.step(LinkEvent::Dial), LinkAction::Nothing);
    assert_eq!(link.step(LinkEvent::Created), LinkAction::Nothing);
    assert_eq!(link.step(LinkEvent::Dropped { generation: 0 }), LinkAction::Nothing);
}
