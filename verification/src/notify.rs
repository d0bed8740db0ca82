//! The notification model: structured failure diagnostics, severities, toast
//! actions, the online/offline tracker, and long-task surfacing stages.
use vstd::prelude::*;
use crate::text::{chars_of, extend_str, string_of};

verus! {

/// The structured explanation attached to a failure: what went wrong, what to do
/// next, and a copyable technical block for a bug report.
#[derive(Clone, PartialEq, Eq, Debug, Default)]
pub struct Diagnostic {
    /// What went wrong, in plain language.
    pub cause: String,
    /// The next step the user can take.
    pub next_step: String,
    /// A technical block for a bug report, or empty.
    pub details: String,
}

/// The copyable block for a diagnostic with the given three parts.
pub open spec fn clipboard_block(cause: Seq<char>, next_step: Seq<char>, details: Seq<char>) -> Seq<
    char,
> {
    let head = "Cause: "@ + cause + "\nNext step: "@ + next_step;
    if details.len() > 0 {
        head + "\n\nDetails:\n"@ + details
    } else {
        head
    }
}

impl Diagnostic {
    /// A diagnostic with a `cause`, a `next_step`, and an optional technical
    /// `details` block.
    pub fn new(cause: &str, next_step: &str, details: &str) -> (r: Self)
        ensures
            r.cause@ == cause@,
            r.next_step@ == next_step@,
            r.details@ == details@,
    {
        Diagnostic {
            cause: cause.to_owned(),
            next_step: next_step.to_owned(),
            details: details.to_owned(),
        }
    }

    /// Whether a technical details block is present.
    pub fn has_details(&self) -> (r: bool)
        ensures
            r == (self.details@.len() > 0),
    {
        let v = chars_of(self.details.as_str());
        v.len() > 0
    }

    /// The full copyable block: the cause, the next step, and (when present) the
    /// technical details, each labeled and newline-separated.
    pub fn clipboard_text(&self) -> (r: String)
        ensures
            r@ == clipboard_block(self.cause@, self.next_step@, self.details@),
    {
        let mut out: Vec<char> = Vec::new();
        extend_str(&mut out, "Cause: ");
        extend_str(&mut out, self.cause.as_str());
        extend_str(&mut out, "\nNext step: ");
        extend_str(&mut out, self.next_step.as_str());
        if self.has_details() {
            extend_str(&mut out, "\n\nDetails:\n");
            extend_str(&mut out, self.details.as_str());
        }
        string_of(&out)
    }
}

/// How serious a notification is, least to most severe.
#[derive(Clone, Copy, PartialEq, Eq, PartialOrd, Ord, Debug, Hash, Structural)]
pub enum Severity {
    /// A neutral, informational notice.
    Info,
    /// A recoverable problem.
    Warning,
    /// A hard failure.
    Error,
}

/// The rank of a severity: `Info` < `Warning` < `Error`.
pub open spec fn severity_rank(s: Severity) -> int {
    match s {
        Severity::Info => 0,
        Severity::Warning => 1,
        Severity::Error => 2,
    }
}

impl Severity {
    /// A short, stable label for the severity.
    pub fn label(self) -> (r: &'static str)
        ensures
            r@ == (match self {
                Severity::Info => "Info"@,
                Severity::Warning => "Warning"@,
                Severity::Error => "Error"@,
            }),
    {
        match self {
            Severity::Info => "Info",
            Severity::Warning => "Warning",
            Severity::Error => "Error",
        }
    }

    /// The rank of this severity (`Info` 0, `Warning` 1, `Error` 2).
    pub fn rank(self) -> (r: u8)
        ensures
            r == severity_rank(self),
    {
        match self {
            Severity::Info => 0,
            Severity::Warning => 1,
            Severity::Error => 2,
        }
    }
}

/// An action button a notification can carry.
#[derive(Clone, Copy, PartialEq, Eq, Debug, Hash, Structural)]
pub enum NotificationAction {
    /// Re-run the failed operation.
    Retry,
    /// Copy the diagnostic block to the clipboard.
    CopyDetails,
    /// Undo a just-performed reversible action.
    Undo,
    /// Fit the freshly opened document to the view.
    Fit,
}

impl NotificationAction {
    /// The button label shown for this action.
    pub fn label(self) -> (r: &'static str)
        ensures
            r@ == (match self {
                NotificationAction::Retry => "Retry"@,
                NotificationAction::CopyDetails => "Copy details"@,
                NotificationAction::Undo => "Undo"@,
                NotificationAction::Fit => "Fit"@,
            }),
    {
        match self {
            NotificationAction::Retry => "Retry",
            NotificationAction::CopyDetails => "Copy details",
            NotificationAction::Undo => "Undo",
            NotificationAction::Fit => "Fit",
        }
    }
}

/// The summary of the toast raised when the connection drops.
pub const OFFLINE_SUMMARY: &'static str = "You are offline";

/// The detail of the toast raised when the connection drops.
pub const OFFLINE_DETAIL: &'static str = "Live sharing is paused. Reticle will reconnect automatically when the connection returns.";

/// The summary of the toast raised when the connection returns.
pub const RECONNECTED_SUMMARY: &'static str = "Reconnected";

/// The detail of the toast raised when the connection returns.
pub const RECONNECTED_DETAIL: &'static str = "Live sharing has resumed.";

/// Whether the app currently has a live connection to the share relay.
#[derive(Clone, Copy, PartialEq, Eq, Debug, Default, Structural)]
pub enum Connectivity {
    /// Connected (or never went offline).
    #[default]
    Online,
    /// The connection dropped.
    Offline,
}

/// Tracks online/offline state so the reconnect toasts fire once per real
/// transition.
#[derive(Clone, Copy, PartialEq, Eq, Debug, Default)]
pub struct ConnectivityState {
    current: Connectivity,
}

impl ConnectivityState {
    /// The current connectivity.
    pub closed spec fn state(self) -> Connectivity {
        self.current
    }

    /// A fresh state, assumed online.
    pub fn new() -> (r: Self)
        ensures
            r.state() == Connectivity::Online,
    {
        ConnectivityState { current: Connectivity::Online }
    }

    /// The current connectivity.
    pub fn current(self) -> (r: Connectivity)
        ensures
            r == self.state(),
    {
        self.current
    }

    /// Records that the connection dropped: `true` on the online -> offline
    /// edge (the moment to warn once), `false` when already offline.
    pub fn mark_offline(&mut self) -> (r: bool)
        ensures
            r == (old(self).state() == Connectivity::Online),
            final(self).state() == Connectivity::Offline,
    {
        let edge = match self.current {
            Connectivity::Online => true,
            Connectivity::Offline => false,
        };
        self.current = Connectivity::Offline;
        edge
    }

    /// Records that the connection returned: `true` on the offline -> online
    /// edge (the moment to reassure once), `false` when already online.
    pub fn mark_online(&mut self) -> (r: bool)
        ensures
            r == (old(self).state() == Connectivity::Offline),
            final(self).state() == Connectivity::Online,
    {
        let edge = match self.current {
            Connectivity::Offline => true,
            Connectivity::Online => false,
        };
        self.current = Connectivity::Online;
        edge
    }

    /// Records that the connection dropped; on the online -> offline edge
    /// returns the warning to raise, and `None` when already offline (no
    /// repeat toast).
    pub fn set_offline(&mut self) -> (r: Option<ConnectivityNotice>)
        ensures
            final(self).state() == Connectivity::Offline,
            match r {
                Some(n) => old(self).state() == Connectivity::Online && n.severity == Severity::Warning
                    && n.summary@ == OFFLINE_SUMMARY@ && n.detail@ == OFFLINE_DETAIL@,
                None => old(self).state() == Connectivity::Offline,
            },
    {
        if self.mark_offline() {
            Some(ConnectivityNotice { severity: Severity::Warning, summary: OFFLINE_SUMMARY, detail: OFFLINE_DETAIL })
        } else {
            None
        }
    }

    /// Records that the connection returned; on the offline -> online edge
    /// returns the reassurance to raise, and `None` when already online (no
    /// repeat toast).
    pub fn set_online(&mut self) -> (r: Option<ConnectivityNotice>)
        ensures
            final(self).state() == Connectivity::Online,
            match r {
                Some(n) => old(self).state() == Connectivity::Offline && n.severity == Severity::Info
                    && n.summary@ == RECONNECTED_SUMMARY@ && n.detail@ == RECONNECTED_DETAIL@,
                None => old(self).state() == Connectivity::Online,
            },
    {
        if self.mark_online() {
            Some(ConnectivityNotice { severity: Severity::Info, summary: RECONNECTED_SUMMARY, detail: RECONNECTED_DETAIL })
        } else {
            None
        }
    }

    /// The offline-badge label to show in the status bar, or `None` while online.
    pub fn badge_label(self) -> (r: Option<&'static str>)
        ensures
            match r {
                Some(s) => self.state() == Connectivity::Offline && s@ == "Offline"@,
                None => self.state() == Connectivity::Online,
            },
    {
        match self.current {
            Connectivity::Offline => Some("Offline"),
            Connectivity::Online => None,
        }
    }
}

/// The toast a connectivity edge raises, as plain values: its severity, its
/// summary and its detail.
#[derive(Clone, Copy, PartialEq, Eq, Debug)]
pub struct ConnectivityNotice {
    /// How serious the notice is.
    pub severity: Severity,
    /// The one-line summary.
    pub summary: &'static str,
    /// The longer explanation.
    pub detail: &'static str,
}



/// How prominently an in-flight long task is surfaced.
#[derive(Clone, Copy, PartialEq, Eq, Debug, Structural)]
pub enum TaskStage {
    /// Under the spinner threshold: show nothing.
    Hidden,
    /// A quiet status-bar spinner.
    Spinner,
    /// A progress toast with a cancel affordance.
    Progress,
}

impl TaskStage {
    /// Whether this stage warrants a cancel affordance (only the progress toast).
    pub fn shows_cancel(self) -> (r: bool)
        ensures
            r == (self == TaskStage::Progress),
    {
        match self {
            TaskStage::Progress => true,
            _ => false,
        }
    }
}

// ---------------------------------------------------------------------------
// The bounded toast queue
// ---------------------------------------------------------------------------

/// The most toasts kept live at once; older ones are archived when a push
/// exceeds it.
pub const MAX_QUEUED: usize = 6;

/// The most toasts the history keeps; the oldest are dropped past it.
pub const HISTORY_CAP: usize = 50;

/// The last `cap` elements of `s` (all of `s` when it is no longer).
pub open spec fn newest<T>(s: Seq<T>, cap: nat) -> Seq<T> {
    if s.len() > cap {
        s.skip(s.len() - cap)
    } else {
        s
    }
}

/// The history after the toasts `left` leave the live queue, oldest first:
/// appended in order, the newest [`HISTORY_CAP`] kept.
pub open spec fn archived<T>(history: Seq<T>, left: Seq<T>) -> Seq<T> {
    newest(history + left, HISTORY_CAP as nat)
}

/// The elements of `s` whose flag in `flags` is `want`, in order.
pub open spec fn flagged<T>(s: Seq<T>, flags: Seq<bool>, want: bool) -> Seq<T>
    decreases s.len(),
{
    if s.len() == 0 {
        Seq::empty()
    } else {
        let rest = flagged(s.drop_last(), flags, want);
        if flags[s.len() - 1] == want {
            rest.push(s.last())
        } else {
            rest
        }
    }
}

proof fn lemma_newest_push<T>(s: Seq<T>, x: T, cap: nat)
    ensures
        newest(newest(s, cap).push(x), cap) == newest(s.push(x), cap),
{
    assert(newest(newest(s, cap).push(x), cap) =~= newest(s.push(x), cap));
}

proof fn lemma_archived_step<T>(history: Seq<T>, left: Seq<T>, x: T)
    ensures
        newest(archived(history, left).push(x), HISTORY_CAP as nat) == archived(history, left.push(x)),
{
    lemma_newest_push(history + left, x, HISTORY_CAP as nat);
    assert((history + left).push(x) =~= history + left.push(x));
}

/// A bounded queue of live toasts, oldest first, with the bounded history they
/// leave into; the toast type is the caller's.
pub struct ToastQueue<T> {
    items: Vec<T>,
    history: Vec<T>,
}

impl<T> ToastQueue<T> {
    /// The live toasts, oldest first.
    pub closed spec fn live(&self) -> Seq<T> {
        self.items@
    }

    /// The history, oldest first.
    pub closed spec fn past(&self) -> Seq<T> {
        self.history@
    }

    /// Both lists within their bounds.
    pub open spec fn wf(&self) -> bool {
        self.live().len() <= MAX_QUEUED && self.past().len() <= HISTORY_CAP
    }

    /// An empty queue with an empty history.
    pub fn new() -> (r: Self)
        ensures
            r.wf(),
            r.live() == Seq::<T>::empty(),
            r.past() == Seq::<T>::empty(),
    {
        ToastQueue { items: Vec::new(), history: Vec::new() }
    }

    fn archive(&mut self, note: T)
        requires
            old(self).past().len() <= HISTORY_CAP,
        ensures
            final(self).live() == old(self).live(),
            final(self).past() == newest(old(self).past().push(note), HISTORY_CAP as nat),
            final(self).past().len() <= HISTORY_CAP,
    {
        self.history.push(note);
        if self.history.len() > HISTORY_CAP {
            self.history.remove(0);
            assert(self.history@ =~= newest(old(self).past().push(note), HISTORY_CAP as nat));
        }
    }

    /// Pushes a toast; when that makes more than [`MAX_QUEUED`] live, the
    /// oldest is archived so the newest stay. Returns the index of the pushed
    /// toast in the live queue (after any trim): it is the last one.
    pub fn push(&mut self, note: T) -> (r: usize)
        requires
            old(self).wf(),
        ensures
            final(self).wf(),
            r + 1 == final(self).live().len(),
            final(self).live()[r as int] == note,
            final(self).live() == newest(old(self).live().push(note), MAX_QUEUED as nat),
            final(self).past() == archived(
                old(self).past(),
                old(self).live().push(note).take(
                    old(self).live().len() + 1 - final(self).live().len(),
                ),
            ),
    {
        let ghost all = self.items@.push(note);
        self.items.push(note);
        if self.items.len() > MAX_QUEUED {
            let first = self.items.remove(0);
            self.archive(first);
            assert(self.items@ =~= newest(all, MAX_QUEUED as nat));
            assert(all.take(1) =~= seq![first]);
            assert(old(self).past() + seq![first] =~= old(self).past().push(first));
            assert(newest(old(self).past().push(first), HISTORY_CAP as nat) == archived(
                old(self).past(),
                all.take(1),
            ));
        } else {
            assert(all.take(0) =~= Seq::<T>::empty());
            assert(old(self).past() + Seq::<T>::empty() =~= old(self).past());
        }
        self.items.len() - 1
    }

    /// Removes the toast at `index` (a user dismissal) into the history;
    /// an index past the end changes nothing.
    pub fn dismiss(&mut self, index: usize)
        requires
            old(self).wf(),
        ensures
            final(self).wf(),
            index < old(self).live().len() ==> final(self).live() == old(self).live().remove(
                index as int,
            ) && final(self).past() == archived(
                old(self).past(),
                seq![old(self).live()[index as int]],
            ),
            index >= old(self).live().len() ==> final(self).live() == old(self).live()
                && final(self).past() == old(self).past(),
    {
        if index < self.items.len() {
            let note = self.items.remove(index);
            self.archive(note);
            assert(old(self).past() + seq![note] =~= old(self).past().push(note));
        }
    }

    /// Archives every live toast, oldest first, leaving the queue empty.
    pub fn clear(&mut self)
        requires
            old(self).wf(),
        ensures
            final(self).wf(),
            final(self).live() == Seq::<T>::empty(),
            final(self).past() == archived(old(self).past(), old(self).live()),
    {
        let ghost start = self.items@;
        let ghost h0 = self.history@;
        assert(h0 + Seq::<T>::empty() =~= h0);
        assert(newest(h0, HISTORY_CAP as nat) == h0);
        let mut k: usize = 0;
        while self.items.len() > 0
            invariant
                self.items@ == start.skip(k as int),
                k <= start.len(),
                start.len() <= MAX_QUEUED,
                self.history@ == archived(h0, start.take(k as int)),
                self.history@.len() <= HISTORY_CAP,
            decreases self.items@.len(),
        {
            let note = self.items.remove(0);
            proof {
                lemma_archived_step(h0, start.take(k as int), note);
                assert(start.take(k as int).push(note) =~= start.take(k + 1));
            }
            self.archive(note);
            assert(self.items@ =~= start.skip(k + 1));
            k = k + 1;
        }
        assert(start.take(k as int) =~= start);
    }

    /// Archives the live toasts whose flag in `expired` is set, oldest first,
    /// keeping the others in order.
    pub fn expire(&mut self, expired: &[bool])
        requires
            old(self).wf(),
            expired@.len() == old(self).live().len(),
        ensures
            final(self).wf(),
            final(self).live() == flagged(old(self).live(), expired@, false),
            final(self).past() == archived(old(self).past(), flagged(old(self).live(), expired@, true)),
    {
        let ghost start = self.items@;
        let ghost h0 = self.history@;
        let mut kept: Vec<T> = Vec::new();
        let mut k: usize = 0;
        assert(h0 + Seq::<T>::empty() =~= h0);
        while self.items.len() > 0
            invariant
                self.items@ == start.skip(k as int),
                k <= start.len(),
                start.len() <= MAX_QUEUED,
                expired@.len() == start.len(),
                kept@ == flagged(start.take(k as int), expired@, false),
                kept@.len() <= k,
                self.history@ == archived(h0, flagged(start.take(k as int), expired@, true)),
                self.history@.len() <= HISTORY_CAP,
            decreases self.items@.len(),
        {
            let note = self.items.remove(0);
            proof {
                assert(start.take(k + 1).drop_last() =~= start.take(k as int));
                assert(start.take(k + 1).last() == note);
                lemma_archived_step(h0, flagged(start.take(k as int), expired@, true), note);
            }
            if expired[k] {
                self.archive(note);
            } else {
                kept.push(note);
            }
            assert(self.items@ =~= start.skip(k + 1));
            k = k + 1;
        }
        assert(start.take(k as int) =~= start);
        self.items = kept;
    }

    /// The live toasts, oldest first.
    pub fn items(&self) -> (r: &[T])
        ensures
            r@ == self.live(),
    {
        self.items.as_slice()
    }

    /// The history, oldest first, newest last.
    pub fn history(&self) -> (r: &[T])
        ensures
            r@ == self.past(),
    {
        self.history.as_slice()
    }

    /// Empties the history.
    pub fn clear_history(&mut self)
        requires
            old(self).wf(),
        ensures
            final(self).wf(),
            final(self).live() == old(self).live(),
            final(self).past() == Seq::<T>::empty(),
    {
        self.history.clear();
    }

    /// Replaces the live toast at `index` (to update its clock).
    pub fn replace(&mut self, index: usize, note: T)
        requires
            old(self).wf(),
            index < old(self).live().len(),
        ensures
            final(self).wf(),
            final(self).live() == old(self).live().update(index as int, note),
            final(self).past() == old(self).past(),
    {
        self.items.set(index, note);
    }

    /// How many toasts are live.
    pub fn len(&self) -> (r: usize)
        ensures
            r == self.live().len(),
    {
        self.items.len()
    }

    /// Whether no toast is live.
    pub fn is_empty(&self) -> (r: bool)
        ensures
            r == (self.live().len() == 0),
    {
        self.items.len() == 0
    }
}

} // verus!
