use reticle_app::plugin_panel::{PluginPanelState, RunSummary, BROWSER_DISCLAIMER};

#[test]
fn browser_disclaimer_is_honest_about_the_desktop_only_boundary() {
    assert!(BROWSER_DISCLAIMER.contains("desktop app"));
    assert!(BROWSER_DISCLAIMER.contains("never runs a plugin"));
}

#[test]
fn run_summary_displays_readably() {
    assert_eq!(RunSummary::Failed("boom".to_owned()).message(), "boom");
    let ran = RunSummary::Ran {
        staged: 2,
        applied: 1,
        errors: 1,
        fuel_consumed: 42,
    };
    let text = ran.message();
    assert!(text.contains("staged 2"));
    assert!(text.contains("applied 1"));
    assert!(text.contains("errors 1"));
    assert!(text.contains("fuel 42"));
}

#[test]
fn run_summary_text_is_exact() {
    let ran = RunSummary::Ran { staged: 10, applied: 7, errors: 3, fuel_consumed: 1_000_000 };
    assert_eq!(ran.message(), "staged 10, applied 7, errors 3, fuel 1000000");
}

#[test]
fn panel_bookkeeping_tracks_the_selected_entry() {
    let mut state = PluginPanelState::with_entry_count(3);
    assert_eq!(state.selected(), 0);
    state.select(9999);
    assert_eq!(state.selected(), 0);
    state.select(2);
    state.install_selected(vec![1, 2, 3]);
    state.record_run(RunSummary::Failed("trap".to_owned()));
    assert!(state.is_installed(2));
    assert!(!state.is_installed(0));
    assert_eq!(state.last_run(2), Some(&RunSummary::Failed("trap".to_owned())));
    state.enable_selected();
    assert!(state.is_enabled(2));
    state.disable_selected();
    assert!(!state.is_enabled(2));
    assert!(state.is_installed(2));
    state.install_selected(vec![4]);
    assert_eq!(state.last_run(2), None);
    assert!(!state.is_installed(7));
    assert!(!state.is_enabled(7));
}

/// The panel over a one-entry catalog (the embedded fixture lists one plugin).
fn one_entry_state() -> PluginPanelState {
    PluginPanelState::with_entry_count(1)
}

#[test]
fn embedded_fixture_lists_at_least_one_plugin() {
    let state = one_entry_state();
    assert!(state.entry_count() > 0, "the fixture seeds at least one entry");
    assert_eq!(state.selected(), 0);
    assert!(!state.is_installed(0));
    assert!(!state.is_enabled(0));
    assert!(state.last_run(0).is_none());
}

#[test]
fn install_then_disable_keeps_bytes_but_clears_enabled() {
    let mut state = one_entry_state();
    state.install_selected(vec![0u8; 4]);
    assert!(state.is_installed(0));
    state.enable_selected();
    assert!(state.is_enabled(0));
    state.disable_selected();
    assert!(!state.is_enabled(0));
    assert!(state.is_installed(0), "disable keeps the installed bytes");
}

#[test]
fn record_run_is_retrievable_and_reinstall_clears_it() {
    let mut state = one_entry_state();
    assert!(state.last_run(0).is_none());
    state.record_run(RunSummary::Ran { staged: 1, applied: 1, errors: 0, fuel_consumed: 10 });
    assert!(state.last_run(0).is_some());
    state.install_selected(vec![1u8; 2]);
    assert!(state.last_run(0).is_none(), "a fresh install invalidates the stale outcome");
}
