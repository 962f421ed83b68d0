use anyfast::health::{
    classify_tick, decide_switch, dedupe_endpoints_by_domain, initial_domain_state,
    is_in_cooldown, record_switch, sanitize_thresholds, should_switch_after_silent_window,
    PendingMap, SwitchDecision, MIN_CHECK_INTERVAL_SECS, MIN_FAILURE_THRESHOLD,
    MIN_SLOW_THRESHOLD_PERCENT, SWITCH_COOLDOWN_SECS, SWITCH_SILENT_WINDOW_SECS,
};
use anyfast::probe::Endpoint;

fn endpoint(name: &str, domain: &str) -> Endpoint {
    Endpoint {
        name: name.to_string(),
        url: format!("https://{}/health", domain),
        domain: domain.to_string(),
        enabled: true,
    }
}

#[test]
fn dedupe_endpoints_by_domain_keeps_first_item() {
    let endpoints = vec![
        endpoint("a-1", "a.com"),
        endpoint("a-2", "a.com"),
        endpoint("b-1", "b.com"),
    ];
    let deduped = dedupe_endpoints_by_domain(endpoints);

    assert_eq!(deduped.len(), 2);
    assert_eq!(deduped[0].name, "a-1");
    assert_eq!(deduped[1].name, "b-1");
}

#[test]
fn defensive_thresholds_are_not_too_aggressive() {
    assert!(MIN_CHECK_INTERVAL_SECS >= 60);
    assert!(MIN_SLOW_THRESHOLD_PERCENT >= 100);
    assert!(MIN_FAILURE_THRESHOLD >= 3);
}

#[test]
fn silent_window_defers_first_switch() {
    let mut pending = PendingMap::new();
    let now = 1_000;
    let should_switch =
        should_switch_after_silent_window("a.com", now, true, false, &mut pending);
    assert!(!should_switch);
    assert_eq!(pending.get("a.com"), Some(now));
}

#[test]
fn silent_window_switches_after_timeout() {
    let mut pending = PendingMap::new();
    let _ = should_switch_after_silent_window("a.com", 1_000, true, false, &mut pending);
    let should_switch = should_switch_after_silent_window(
        "a.com",
        1_000 + SWITCH_SILENT_WINDOW_SECS,
        true,
        false,
        &mut pending,
    );
    assert!(should_switch);
}

#[test]
fn silent_window_clears_on_recovery() {
    let mut pending = PendingMap::new();
    let _ = should_switch_after_silent_window("a.com", 1_000, true, false, &mut pending);
    let should_switch = should_switch_after_silent_window("a.com", 1_010, false, false, &mut pending);
    assert!(!should_switch);
    assert!(pending.get("a.com").is_none());
}

#[test]
fn clamps_apply_to_lax_settings() {
    let (ci, st, ft) = sanitize_thresholds(5, 50, 1);
    assert_eq!(ci, 60);
    assert_eq!(st, 100);
    assert_eq!(ft, 3);
    let (ci2, st2, ft2) = sanitize_thresholds(300, 200, 7);
    assert_eq!((ci2, st2, ft2), (300, 200, 7));
}

#[test]
fn classifier_defers_then_fires_after_silent_window() {
    // From all-clear, failing ticks trigger the switch condition at some
    // tick: no switch then, only a pending record; the condition holding
    // through the silent window authorizes exactly one switch.
    let mut state = initial_domain_state();
    let mut now = 100_000i64;
    let mut authorized_at: Option<i64> = None;

    // Seven failing ticks, one per minute, build up the windows.
    for _ in 0..7 {
        let (s2, auth) = classify_tick(state, false, 0, 100, 150, 3, now);
        state = s2;
        assert!(!auth || authorized_at.is_some());
        if state.pending_since.is_some() && authorized_at.is_none() {
            // First triggering tick: deferred, with the time recorded.
            assert!(!auth);
            authorized_at = Some(now);
            break;
        }
        now += 60;
    }
    let t0 = authorized_at.expect("the trigger should have fired");
    assert_eq!(state.pending_since, Some(t0));

    // Sixty seconds on, still inside the silent window: no switch.
    let (s3, auth) = classify_tick(state, false, 0, 100, 150, 3, t0 + 60);
    assert!(!auth);
    state = s3;

    // A recovery clears the pending record: no switch ever fires from it.
    let (s4, auth) = classify_tick(state, true, 80, 100, 150, 3, t0 + 90);
    assert!(!auth);
    assert!(s4.pending_since.is_none());

    // Run the failing sequence again without recovery, past the window.
    let mut state = initial_domain_state();
    let mut now = 100_000i64;
    let mut t0 = None;
    for _ in 0..20 {
        let (s2, auth) = classify_tick(state, false, 0, 100, 150, 3, now);
        state = s2;
        if t0.is_none() {
            if let Some(t) = state.pending_since {
                t0 = Some(t);
            }
            assert!(!auth);
        } else if now - t0.unwrap() >= SWITCH_SILENT_WINDOW_SECS {
            assert!(auth, "switch must fire once the window has elapsed");
            break;
        }
        now += 60;
    }
}

#[test]
fn cooldown_blocks_back_to_back_switches() {
    let state = initial_domain_state();
    let (state, _) = classify_tick(state, false, 0, 100, 150, 3, 0);
    let state = record_switch(state, 10_000);
    assert!(is_in_cooldown(10_000 + SWITCH_COOLDOWN_SECS - 1, state.last_switch));
    assert!(!is_in_cooldown(10_000 + SWITCH_COOLDOWN_SECS, state.last_switch));
}

#[test]
fn switch_decision_needs_meaningful_improvement() {
    let current: String = "1.1.1.1".into();
    let best: String = "2.2.2.2".into();
    // Same address: keep.
    assert!(matches!(
        decide_switch(&current, true, 100, &current, 90),
        SwitchDecision::KeepCurrent
    ));
    // Working, and the candidate is only slightly better: stay.
    assert!(matches!(
        decide_switch(&current, true, 100, &best, 90),
        SwitchDecision::NotWorthSwitching
    ));
    // Working, and the candidate is far better: switch.
    assert!(matches!(
        decide_switch(&current, true, 500, &best, 100),
        SwitchDecision::Switch
    ));
    // Dead: any working candidate wins.
    assert!(matches!(
        decide_switch(&current, false, 9999, &best, 800),
        SwitchDecision::Switch
    ));
}
