//! The plugin manager's bookkeeping: the selected entry of the plugin index
//! and, per entry, the installed wasm bytes, the enabled flag and the last run
//! outcome; plus the summary a finished run leaves and the browser-side
//! disclaimer.
use vstd::prelude::*;
use crate::text::{decimal, extend_str, push_decimal, string_of};

verus! {

/// The browser-side disclaimer: plugins never run in the browser tab.
pub const BROWSER_DISCLAIMER: &'static str = "Plugins run in the desktop app. This browser build lists and previews the index only; it never runs a plugin.";

/// A summary of a completed (or failed) plugin run.
#[derive(Clone, PartialEq, Eq, Debug)]
pub enum RunSummary {
    /// The plugin ran to completion.
    Ran {
        /// Edits the plugin staged, in call order.
        staged: usize,
        /// Staged edits that applied.
        applied: usize,
        /// Staged edits that failed to apply.
        errors: usize,
        /// Fuel the run consumed.
        fuel_consumed: u64,
    },
    /// Nothing was installed, or the host failed; a human-readable reason.
    Failed(String),
}

/// The text of a run summary.
pub open spec fn summary_text(s: RunSummary) -> Seq<char> {
    match s {
        RunSummary::Ran { staged, applied, errors, fuel_consumed } => "staged "@ + decimal(
            staged as nat,
        ) + ", applied "@ + decimal(applied as nat) + ", errors "@ + decimal(errors as nat)
            + ", fuel "@ + decimal(fuel_consumed as nat),
        RunSummary::Failed(msg) => msg@,
    }
}

impl RunSummary {
    /// The summary as the panel shows it:
    /// `staged N, applied N, errors N, fuel N`, or the failure reason.
    pub fn message(&self) -> (r: String)
        ensures
            r@ == summary_text(*self),
    {
        match self {
            RunSummary::Ran { staged, applied, errors, fuel_consumed } => {
                let mut out: Vec<char> = Vec::new();
                extend_str(&mut out, "staged ");
                push_decimal(&mut out, *staged as u64);
                extend_str(&mut out, ", applied ");
                push_decimal(&mut out, *applied as u64);
                extend_str(&mut out, ", errors ");
                push_decimal(&mut out, *errors as u64);
                extend_str(&mut out, ", fuel ");
                push_decimal(&mut out, *fuel_consumed);
                string_of(&out)
            },
            RunSummary::Failed(msg) => msg.clone(),
        }
    }
}

/// The plugin manager's per-entry bookkeeping over an index of `entry_count`
/// plugins.
#[derive(Debug)]
pub struct PluginPanelState {
    entry_count: usize,
    selected: usize,
    installed: Vec<Option<Vec<u8>>>,
    enabled: Vec<bool>,
    last_run: Vec<Option<RunSummary>>,
}

/// The bookkeeping as plain values.
pub struct PanelModel {
    /// The number of index entries.
    pub count: nat,
    /// The selected entry.
    pub selected: nat,
    /// The installed bytes per entry.
    pub installed: Seq<Option<Seq<u8>>>,
    /// The enabled flag per entry.
    pub enabled: Seq<bool>,
    /// The last run per entry.
    pub last_run: Seq<Option<RunSummary>>,
}

/// `o` with its bytes as a sequence.
pub open spec fn bytes_view(o: Option<Vec<u8>>) -> Option<Seq<u8>> {
    match o {
        Some(v) => Some(v@),
        None => None,
    }
}

impl View for PluginPanelState {
    type V = PanelModel;

    closed spec fn view(&self) -> PanelModel {
        PanelModel {
            count: self.entry_count as nat,
            selected: self.selected as nat,
            installed: self.installed@.map_values(|o: Option<Vec<u8>>| bytes_view(o)),
            enabled: self.enabled@,
            last_run: self.last_run@,
        }
    }
}

impl PluginPanelState {
    /// Whether the per-entry lists agree in length with the index and the
    /// selection is an entry (or the index is empty).
    pub closed spec fn wf(&self) -> bool {
        &&& self.installed@.len() == self.entry_count
        &&& self.enabled@.len() == self.entry_count
        &&& self.last_run@.len() == self.entry_count
        &&& (self.selected < self.entry_count || self.selected == 0)
    }

    /// The bookkeeping for an index of `entry_count` entries: the first one
    /// selected, nothing installed, enabled or run.
    pub fn with_entry_count(entry_count: usize) -> (r: PluginPanelState)
        ensures
            r.wf(),
            r@.count == entry_count,
            r@.selected == 0,
            r@.installed == Seq::new(entry_count as nat, |i: int| None::<Seq<u8>>),
            r@.enabled == Seq::new(entry_count as nat, |i: int| false),
            r@.last_run == Seq::new(entry_count as nat, |i: int| None::<RunSummary>),
    {
        let mut installed: Vec<Option<Vec<u8>>> = Vec::new();
        let mut enabled: Vec<bool> = Vec::new();
        let mut last_run: Vec<Option<RunSummary>> = Vec::new();
        let mut i: usize = 0;
        while i < entry_count
            invariant
                i <= entry_count,
                installed@.len() == i,
                forall|k: int| 0 <= k < i ==> #[trigger] installed@[k] is None,
                enabled@ == Seq::new(i as nat, |k: int| false),
                last_run@ == Seq::new(i as nat, |k: int| None::<RunSummary>),
            decreases entry_count - i,
        {
            installed.push(None);
            enabled.push(false);
            last_run.push(None);
            i = i + 1;
        }
        let r = PluginPanelState { entry_count, selected: 0, installed, enabled, last_run };
        assert(r@.installed =~= Seq::new(entry_count as nat, |i: int| None::<Seq<u8>>));
        r
    }

    /// The number of index entries.
    pub fn entry_count(&self) -> (r: usize)
        ensures
            r == self@.count,
    {
        self.entry_count
    }

    /// The index of the selected entry.
    pub fn selected(&self) -> (r: usize)
        ensures
            r == self@.selected,
    {
        self.selected
    }

    /// Selects the entry at `index`, if in range; otherwise nothing changes.
    pub fn select(&mut self, index: usize)
        requires
            old(self).wf(),
        ensures
            final(self).wf(),
            final(self)@.selected == if index < old(self)@.count {
                index as nat
            } else {
                old(self)@.selected
            },
            final(self)@.count == old(self)@.count,
            final(self)@.installed == old(self)@.installed,
            final(self)@.enabled == old(self)@.enabled,
            final(self)@.last_run == old(self)@.last_run,
    {
        if index < self.entry_count {
            self.selected = index;
        }
    }

    /// Whether the entry at `index` has installed wasm bytes.
    pub fn is_installed(&self, index: usize) -> (r: bool)
        requires
            self.wf(),
        ensures
            r == (index < self@.count && self@.installed[index as int] is Some),
    {
        if index < self.installed.len() {
            self.installed[index].is_some()
        } else {
            false
        }
    }

    /// Whether the entry at `index` is enabled.
    pub fn is_enabled(&self, index: usize) -> (r: bool)
        requires
            self.wf(),
        ensures
            r == (index < self@.count && self@.enabled[index as int]),
    {
        if index < self.enabled.len() {
            self.enabled[index]
        } else {
            false
        }
    }

    /// The last run outcome of the entry at `index`, if any.
    pub fn last_run(&self, index: usize) -> (r: Option<&RunSummary>)
        requires
            self.wf(),
        ensures
            match r {
                Some(s) => index < self@.count && self@.last_run[index as int] == Some(*s),
                None => index >= self@.count || self@.last_run[index as int] is None,
            },
    {
        if index < self.last_run.len() {
            match &self.last_run[index] {
                Some(s) => Some(s),
                None => None,
            }
        } else {
            None
        }
    }

    /// Installs `wasm` as the selected entry's bytes and clears its last run,
    /// which described the previous bytes.
    pub fn install_selected(&mut self, wasm: Vec<u8>)
        requires
            old(self).wf(),
            old(self)@.count > 0,
        ensures
            final(self).wf(),
            final(self)@.installed == old(self)@.installed.update(
                old(self)@.selected as int,
                Some(wasm@),
            ),
            final(self)@.last_run == old(self)@.last_run.update(old(self)@.selected as int, None),
            final(self)@.enabled == old(self)@.enabled,
            final(self)@.selected == old(self)@.selected,
            final(self)@.count == old(self)@.count,
    {
        let i = self.selected;
        let ghost w = wasm@;
        self.installed.set(i, Some(wasm));
        self.last_run.set(i, None);
        assert(self@.installed =~= old(self)@.installed.update(i as int, Some(w)));
    }

    /// Marks the selected entry enabled.
    pub fn enable_selected(&mut self)
        requires
            old(self).wf(),
            old(self)@.count > 0,
        ensures
            final(self).wf(),
            final(self)@.enabled == old(self)@.enabled.update(old(self)@.selected as int, true),
            final(self)@.installed == old(self)@.installed,
            final(self)@.last_run == old(self)@.last_run,
            final(self)@.selected == old(self)@.selected,
            final(self)@.count == old(self)@.count,
    {
        let i = self.selected;
        self.enabled.set(i, true);
    }

    /// Marks the selected entry disabled, keeping any installed bytes.
    pub fn disable_selected(&mut self)
        requires
            old(self).wf(),
            old(self)@.count > 0,
        ensures
            final(self).wf(),
            final(self)@.enabled == old(self)@.enabled.update(old(self)@.selected as int, false),
            final(self)@.installed == old(self)@.installed,
            final(self)@.last_run == old(self)@.last_run,
            final(self)@.selected == old(self)@.selected,
            final(self)@.count == old(self)@.count,
    {
        let i = self.selected;
        self.enabled.set(i, false);
    }

    /// Records `summary` as the selected entry's last run outcome.
    pub fn record_run(&mut self, summary: RunSummary)
        requires
            old(self).wf(),
            old(self)@.count > 0,
        ensures
            final(self).wf(),
            final(self)@.last_run == old(self)@.last_run.update(
                old(self)@.selected as int,
                Some(summary),
            ),
            final(self)@.installed == old(self)@.installed,
            final(self)@.enabled == old(self)@.enabled,
            final(self)@.selected == old(self)@.selected,
            final(self)@.count == old(self)@.count,
    {
        let i = self.selected;
        self.last_run.set(i, Some(summary));
    }
}

} // verus!
