//! First-contact onboarding state: once-only contextual hints and the onboarding
//! checklist.
//!
//! Both are small state machines over fixed sets of flags. A hint fires once and
//! never again; a dismissed checklist stays dismissed; each round-trips through
//! its list of stable text tags for persistence.
use vstd::prelude::*;
use crate::text::{chars_eq_str, chars_of, trim, trim_chars};

verus! {

/// One of the three once-only contextual hints.
#[derive(Clone, Copy, PartialEq, Eq, Debug, Hash, Structural)]
pub enum Hint {
    /// First time the Layers panel is opened.
    Layers,
    /// First time DRC is run.
    Drc,
    /// First time a session is shared.
    Share,
}

/// The position of a hint in [`Hint::ALL`].
pub open spec fn hint_index(h: Hint) -> int {
    match h {
        Hint::Layers => 0,
        Hint::Drc => 1,
        Hint::Share => 2,
    }
}

/// The hint at position `i` of [`Hint::ALL`].
pub open spec fn hint_at(i: int) -> Hint {
    if i == 0 {
        Hint::Layers
    } else if i == 1 {
        Hint::Drc
    } else {
        Hint::Share
    }
}

/// The stable persistence tag of a hint.
pub open spec fn hint_tag(h: Hint) -> Seq<char> {
    match h {
        Hint::Layers => "layers"@,
        Hint::Drc => "drc"@,
        Hint::Share => "share"@,
    }
}

/// The hint whose tag equals `t`, first in [`Hint::ALL`] order.
pub open spec fn hint_named(t: Seq<char>) -> Option<Hint> {
    if hint_tag(Hint::Layers) == t {
        Some(Hint::Layers)
    } else if hint_tag(Hint::Drc) == t {
        Some(Hint::Drc)
    } else if hint_tag(Hint::Share) == t {
        Some(Hint::Share)
    } else {
        None
    }
}

impl Hint {
    /// Every hint, in a stable order (used for serialization).
    pub const ALL: [Hint; 3] = [Hint::Layers, Hint::Drc, Hint::Share];

    /// The stable text tag used when persisting which hints have been seen.
    pub fn tag(self) -> (r: &'static str)
        ensures
            r@ == hint_tag(self),
    {
        match self {
            Hint::Layers => "layers",
            Hint::Drc => "drc",
            Hint::Share => "share",
        }
    }

    /// Parses a persisted hint tag (surrounding whitespace ignored).
    pub fn from_tag(tag: &str) -> (r: Option<Hint>)
        ensures
            r == hint_named(trim(tag@)),
    {
        let v = chars_of(tag);
        let t = trim_chars(&v);
        if chars_eq_str(&t, "layers") {
            Some(Hint::Layers)
        } else if chars_eq_str(&t, "drc") {
            Some(Hint::Drc)
        } else if chars_eq_str(&t, "share") {
            Some(Hint::Share)
        } else {
            None
        }
    }

    /// The hint's short header line.
    pub fn title(self) -> (r: &'static str)
        ensures
            r@ == (match self {
                Hint::Layers => "Layer visibility"@,
                Hint::Drc => "Jump between violations"@,
                Hint::Share => "Anyone with the link"@,
            }),
    {
        match self {
            Hint::Layers => "Layer visibility",
            Hint::Drc => "Jump between violations",
            Hint::Share => "Anyone with the link",
        }
    }

    /// The hint's one-line body copy.
    pub fn body(self) -> (r: &'static str)
        ensures
            r@ == (match self {
                Hint::Layers =>
                    "Toggle a row to hide a layer, alt-click to solo it, and type in the filter to find one."@,
                Hint::Drc =>
                    "Click a violation to zoom straight to it, or step through them with the n and N keys."@,
                Hint::Share =>
                    "A share link opens this exact design in a browser, view-only, with your live cursor."@,
            }),
    {
        match self {
            Hint::Layers =>
                "Toggle a row to hide a layer, alt-click to solo it, and type in the filter to find one.",
            Hint::Drc =>
                "Click a violation to zoom straight to it, or step through them with the n and N keys.",
            Hint::Share =>
                "A share link opens this exact design in a browser, view-only, with your live cursor.",
        }
    }
}

fn hint_slot(h: Hint) -> (r: usize)
    ensures
        r == hint_index(h),
{
    match h {
        Hint::Layers => 0,
        Hint::Drc => 1,
        Hint::Share => 2,
    }
}

/// The hints seen according to a list of tags: hint `i` is seen when some tag
/// names it.
pub open spec fn seen_from_tags(tags: Seq<Seq<char>>) -> Seq<bool> {
    Seq::new(
        3,
        |i: int| exists|k: int| 0 <= k < tags.len() && hint_named(trim(tags[k])) == Some(hint_at(i)),
    )
}

/// The tags of the set flags in `flags`, listed in the order of `names`.
pub open spec fn tags_of(flags: Seq<bool>, names: Seq<Seq<char>>) -> Seq<Seq<char>>
    decreases flags.len(),
{
    if flags.len() == 0 {
        Seq::empty()
    } else {
        let rest = tags_of(flags.drop_last(), names);
        if flags.last() {
            rest.push(names[flags.len() - 1])
        } else {
            rest
        }
    }
}

/// The hint tags in [`Hint::ALL`] order.
pub open spec fn hint_tags() -> Seq<Seq<char>> {
    seq![hint_tag(Hint::Layers), hint_tag(Hint::Drc), hint_tag(Hint::Share)]
}

/// Which once-only hints have already been shown.
#[derive(Clone, Copy, PartialEq, Eq, Debug, Default)]
pub struct Hints {
    /// Seen flags, indexed to match [`Hint::ALL`].
    seen: [bool; 3],
}

impl View for Hints {
    type V = Seq<bool>;

    /// The seen flags, indexed like [`Hint::ALL`].
    closed spec fn view(&self) -> Seq<bool> {
        self.seen@
    }
}

impl Hints {
    /// No hint seen yet.
    pub fn new() -> (r: Hints)
        ensures
            r@ == seq![false, false, false],
    {
        let r = Hints { seen: [false, false, false] };
        assert(r@ =~= seq![false, false, false]);
        r
    }

    /// Rebuilds the set from the persisted seen tags (unknown tags are ignored).
    pub fn from_tags(tags: &[&str]) -> (r: Hints)
        ensures
            r@ == seen_from_tags(tags@.map_values(|t: &str| t@)),
    {
        let ghost all = tags@.map_values(|t: &str| t@);
        let mut hints = Hints { seen: [false, false, false] };
        for k in 0..tags.len()
            invariant
                all == tags@.map_values(|t: &str| t@),
                hints@.len() == 3,
                forall|i: int|
                    0 <= i < 3 ==> hints@[i] == exists|j: int|
                        0 <= j < k && hint_named(trim(all[j])) == Some(hint_at(i)),
        {
            let found = Hint::from_tag(tags[k]);
            match found {
                Some(h) => {
                    let s = hint_slot(h);
                    hints.seen[s] = true;
                },
                None => {},
            }
            assert forall|i: int|
                0 <= i < 3 implies hints@[i] == exists|j: int|
                    0 <= j < k + 1 && hint_named(trim(all[j])) == Some(hint_at(i)) by {
                if hint_named(trim(all[k as int])) == Some(hint_at(i)) {
                    assert(0 <= k < k + 1);
                }
            }
        }
        assert(hints@ =~= seen_from_tags(all));
        hints
    }

    /// Whether `hint` has already been shown.
    pub fn is_seen(&self, hint: Hint) -> (r: bool)
        ensures
            r == self@[hint_index(hint)],
    {
        self.seen[hint_slot(hint)]
    }

    /// Records `hint` as seen; returns `true` if this call changed the state.
    pub fn mark_seen(&mut self, hint: Hint) -> (r: bool)
        ensures
            r == !old(self)@[hint_index(hint)],
            final(self)@ == old(self)@.update(hint_index(hint), true),
    {
        let i = hint_slot(hint);
        let changed = !self.seen[i];
        self.seen[i] = true;
        changed
    }

    /// Fires `hint`: if it has not been seen, marks it seen and returns it;
    /// otherwise returns `None` and changes nothing.
    pub fn fire(&mut self, hint: Hint) -> (r: Option<Hint>)
        ensures
            r == (if old(self)@[hint_index(hint)] {
                None
            } else {
                Some(hint)
            }),
            final(self)@ == old(self)@.update(hint_index(hint), true),
    {
        let i = hint_slot(hint);
        if self.seen[i] {
            assert(old(self)@.update(hint_index(hint), true) =~= old(self)@);
            None
        } else {
            self.seen[i] = true;
            Some(hint)
        }
    }

    /// The seen hints as their stable tags, in [`Hint::ALL`] order.
    pub fn seen_tags(&self) -> (r: Vec<&'static str>)
        ensures
            r@.map_values(|t: &str| t@) == tags_of(self@, hint_tags()),
    {
        let mut out: Vec<&'static str> = Vec::new();
        let all = [Hint::Layers, Hint::Drc, Hint::Share];
        for i in 0..3
            invariant
                all@ == seq![Hint::Layers, Hint::Drc, Hint::Share],
                self@.len() == 3,
                out@.map_values(|t: &str| t@) == tags_of(self@.take(i as int), hint_tags()),
        {
            let h = all[i];
            assert(self@.take(i + 1).drop_last() =~= self@.take(i as int));
            let ghost before = out@.map_values(|t: &str| t@);
            if self.seen[hint_slot(h)] {
                out.push(h.tag());
                assert(out@.map_values(|t: &str| t@) =~= before.push(hint_tag(h)));
            }
        }
        assert(self@.take(3) =~= self@);
        out
    }
}

/// One task on the onboarding checklist.
#[derive(Clone, Copy, PartialEq, Eq, Debug, Hash, Structural)]
pub enum Task {
    /// Open a real design.
    OpenFile,
    /// Run design-rule checking at least once.
    RunDrc,
    /// Share the session by link.
    Share,
    /// Try the agent.
    TryAgent,
}

/// The position of a task in [`Task::ALL`].
pub open spec fn task_index(t: Task) -> int {
    match t {
        Task::OpenFile => 0,
        Task::RunDrc => 1,
        Task::Share => 2,
        Task::TryAgent => 3,
    }
}

/// The task at position `i` of [`Task::ALL`].
pub open spec fn task_at(i: int) -> Task {
    if i == 0 {
        Task::OpenFile
    } else if i == 1 {
        Task::RunDrc
    } else if i == 2 {
        Task::Share
    } else {
        Task::TryAgent
    }
}

/// The stable persistence tag of a task.
pub open spec fn task_tag(t: Task) -> Seq<char> {
    match t {
        Task::OpenFile => "open"@,
        Task::RunDrc => "drc"@,
        Task::Share => "share"@,
        Task::TryAgent => "agent"@,
    }
}

/// The task whose tag equals `t`, first in [`Task::ALL`] order.
pub open spec fn task_named(t: Seq<char>) -> Option<Task> {
    if task_tag(Task::OpenFile) == t {
        Some(Task::OpenFile)
    } else if task_tag(Task::RunDrc) == t {
        Some(Task::RunDrc)
    } else if task_tag(Task::Share) == t {
        Some(Task::Share)
    } else if task_tag(Task::TryAgent) == t {
        Some(Task::TryAgent)
    } else {
        None
    }
}

/// The task tags in [`Task::ALL`] order.
pub open spec fn task_tags() -> Seq<Seq<char>> {
    seq![
        task_tag(Task::OpenFile),
        task_tag(Task::RunDrc),
        task_tag(Task::Share),
        task_tag(Task::TryAgent),
    ]
}

impl Task {
    /// Every task, in checklist order.
    pub const ALL: [Task; 4] = [Task::OpenFile, Task::RunDrc, Task::Share, Task::TryAgent];

    /// The stable text tag used when persisting completed tasks.
    pub fn tag(self) -> (r: &'static str)
        ensures
            r@ == task_tag(self),
    {
        match self {
            Task::OpenFile => "open",
            Task::RunDrc => "drc",
            Task::Share => "share",
            Task::TryAgent => "agent",
        }
    }

    /// Parses a persisted task tag (surrounding whitespace ignored).
    pub fn from_tag(tag: &str) -> (r: Option<Task>)
        ensures
            r == task_named(trim(tag@)),
    {
        let v = chars_of(tag);
        let t = trim_chars(&v);
        if chars_eq_str(&t, "open") {
            Some(Task::OpenFile)
        } else if chars_eq_str(&t, "drc") {
            Some(Task::RunDrc)
        } else if chars_eq_str(&t, "share") {
            Some(Task::Share)
        } else if chars_eq_str(&t, "agent") {
            Some(Task::TryAgent)
        } else {
            None
        }
    }

    /// The task's one-line label on the checklist.
    pub fn label(self) -> (r: &'static str)
        ensures
            r@ == (match self {
                Task::OpenFile => "Open a design"@,
                Task::RunDrc => "Run a design-rule check"@,
                Task::Share => "Share the session by link"@,
                Task::TryAgent => "Try the agent"@,
            }),
    {
        match self {
            Task::OpenFile => "Open a design",
            Task::RunDrc => "Run a design-rule check",
            Task::Share => "Share the session by link",
            Task::TryAgent => "Try the agent",
        }
    }
}

fn task_slot(t: Task) -> (r: usize)
    ensures
        r == task_index(t),
{
    match t {
        Task::OpenFile => 0,
        Task::RunDrc => 1,
        Task::Share => 2,
        Task::TryAgent => 3,
    }
}

/// The tasks done according to a list of tags: task `i` is done when some tag
/// names it.
pub open spec fn done_from_tags(tags: Seq<Seq<char>>) -> Seq<bool> {
    Seq::new(
        4,
        |i: int| exists|k: int| 0 <= k < tags.len() && task_named(trim(tags[k])) == Some(task_at(i)),
    )
}

/// The number of set flags in `flags`.
pub open spec fn count_true(flags: Seq<bool>) -> nat
    decreases flags.len(),
{
    if flags.len() == 0 {
        0
    } else {
        count_true(flags.drop_last()) + if flags.last() {
            1nat
        } else {
            0nat
        }
    }
}

/// The onboarding checklist: which tasks are done and whether the card is
/// dismissed.
#[derive(Clone, Copy, PartialEq, Eq, Debug, Default)]
pub struct Checklist {
    /// Done flags, indexed to match [`Task::ALL`].
    done: [bool; 4],
    /// Whether the user permanently dismissed the card.
    dismissed: bool,
}

impl Checklist {
    /// The done flags, indexed like [`Task::ALL`].
    pub closed spec fn done_flags(&self) -> Seq<bool> {
        self.done@
    }

    /// Whether the card was dismissed.
    pub closed spec fn dismissed_flag(&self) -> bool {
        self.dismissed
    }

    /// An empty checklist: nothing done, not dismissed.
    pub fn new() -> (r: Checklist)
        ensures
            r.done_flags() == seq![false, false, false, false],
            !r.dismissed_flag(),
    {
        let r = Checklist { done: [false, false, false, false], dismissed: false };
        assert(r.done@ =~= seq![false, false, false, false]);
        r
    }

    /// Rebuilds the checklist from persisted completed-task tags and the
    /// dismissed bit (unknown tags are ignored).
    pub fn restore(done_tags: &[&str], dismissed: bool) -> (r: Checklist)
        ensures
            r.done_flags() == done_from_tags(done_tags@.map_values(|t: &str| t@)),
            r.dismissed_flag() == dismissed,
    {
        let mut c = Checklist { done: [false, false, false, false], dismissed };
        for k in 0..done_tags.len()
            invariant
                c.done@.len() == 4,
                c.dismissed == dismissed,
                forall|i: int|
                    0 <= i < 4 ==> c.done@[i] == exists|j: int|
                        0 <= j < k && task_named(trim(done_tags@[j]@)) == Some(task_at(i)),
        {
            match Task::from_tag(done_tags[k]) {
                Some(t) => {
                    let s = task_slot(t);
                    c.done[s] = true;
                },
                None => {},
            }
            assert forall|i: int|
                0 <= i < 4 implies c.done@[i] == exists|j: int|
                    0 <= j < k + 1 && task_named(trim(done_tags@[j]@)) == Some(task_at(i)) by {
                if task_named(trim(done_tags@[k as int]@)) == Some(task_at(i)) {
                    assert(0 <= k < k + 1);
                }
            }
        }
        let ghost all = done_tags@.map_values(|t: &str| t@);
        assert forall|i: int| 0 <= i < 4 implies c.done@[i] == done_from_tags(all)[i] by {
            if c.done@[i] {
                let j = choose|j: int|
                    0 <= j < done_tags@.len() && task_named(trim(done_tags@[j]@)) == Some(
                        task_at(i),
                    );
                assert(all[j] == done_tags@[j]@);
            }
            if done_from_tags(all)[i] {
                let j = choose|j: int|
                    0 <= j < all.len() && task_named(trim(all[j])) == Some(task_at(i));
                assert(all[j] == done_tags@[j]@);
            }
        }
        assert(c.done@ =~= done_from_tags(all));
        c
    }

    /// Whether `task` is done.
    pub fn is_done(&self, task: Task) -> (r: bool)
        ensures
            r == self.done_flags()[task_index(task)],
    {
        self.done[task_slot(task)]
    }

    /// Marks `task` complete; returns `true` if this changed the state.
    pub fn complete(&mut self, task: Task) -> (r: bool)
        ensures
            r == !old(self).done_flags()[task_index(task)],
            final(self).done_flags() == old(self).done_flags().update(task_index(task), true),
            final(self).dismissed_flag() == old(self).dismissed_flag(),
    {
        let i = task_slot(task);
        let changed = !self.done[i];
        self.done[i] = true;
        changed
    }

    /// Permanently dismisses the card.
    pub fn dismiss(&mut self)
        ensures
            final(self).dismissed_flag(),
            final(self).done_flags() == old(self).done_flags(),
    {
        self.dismissed = true;
    }

    /// Whether the user dismissed the card.
    pub fn is_dismissed(&self) -> (r: bool)
        ensures
            r == self.dismissed_flag(),
    {
        self.dismissed
    }

    /// The number of completed tasks.
    pub fn completed_count(&self) -> (r: usize)
        ensures
            r == count_true(self.done_flags()),
    {
        let mut n: usize = 0;
        for i in 0..4
            invariant
                self.done@.len() == 4,
                n == count_true(self.done@.take(i as int)),
                n <= i,
        {
            assert(self.done@.take(i + 1).drop_last() =~= self.done@.take(i as int));
            if self.done[i] {
                n += 1;
            }
        }
        assert(self.done@.take(4) =~= self.done@);
        n
    }

    /// Progress as `(done, total)` for the "2 of 4" readout.
    pub fn progress(&self) -> (r: (usize, usize))
        ensures
            r == (count_true(self.done_flags()) as usize, 4usize),
    {
        (self.completed_count(), 4)
    }

    /// Whether every task is complete.
    pub fn is_complete(&self) -> (r: bool)
        ensures
            r == (forall|i: int| 0 <= i < 4 ==> self.done_flags()[i]),
    {
        let r = self.done[0] && self.done[1] && self.done[2] && self.done[3];
        proof {
            if r {
                assert forall|i: int| 0 <= i < 4 implies self.done_flags()[i] by {
                    assert(i == 0 || i == 1 || i == 2 || i == 3);
                }
            } else {
                assert(!self.done_flags()[0] || !self.done_flags()[1] || !self.done_flags()[2]
                    || !self.done_flags()[3]);
            }
        }
        r
    }

    /// Whether the card should be drawn: not dismissed and not yet complete.
    pub fn is_visible(&self) -> (r: bool)
        ensures
            r == (!self.dismissed_flag() && !(forall|i: int|
                0 <= i < 4 ==> self.done_flags()[i])),
    {
        !self.dismissed && !self.is_complete()
    }

    /// The completed tasks as their stable tags, in [`Task::ALL`] order.
    pub fn done_tags(&self) -> (r: Vec<&'static str>)
        ensures
            r@.map_values(|t: &str| t@) == tags_of(self.done_flags(), task_tags()),
    {
        let mut out: Vec<&'static str> = Vec::new();
        let all = [Task::OpenFile, Task::RunDrc, Task::Share, Task::TryAgent];
        for i in 0..4
            invariant
                all@ == seq![Task::OpenFile, Task::RunDrc, Task::Share, Task::TryAgent],
                self.done@.len() == 4,
                out@.map_values(|t: &str| t@) == tags_of(self.done@.take(i as int), task_tags()),
        {
            let t = all[i];
            assert(self.done@.take(i + 1).drop_last() =~= self.done@.take(i as int));
            let ghost before = out@.map_values(|t: &str| t@);
            if self.done[task_slot(t)] {
                out.push(t.tag());
                assert(out@.map_values(|t: &str| t@) =~= before.push(task_tag(t)));
            }
        }
        assert(self.done@.take(4) =~= self.done@);
        out
    }
}

/// Whether `x` is the name of a set flag.
pub open spec fn names_a_set_flag(flags: Seq<bool>, names: Seq<Seq<char>>, x: Seq<char>) -> bool {
    exists|j: int| 0 <= j < flags.len() && flags[j] && x == names[j]
}

proof fn lemma_tags_of_members(flags: Seq<bool>, names: Seq<Seq<char>>)
    requires
        flags.len() <= names.len(),
    ensures
        forall|k: int|
            0 <= k < tags_of(flags, names).len() ==> names_a_set_flag(
                flags,
                names,
                #[trigger] tags_of(flags, names)[k],
            ),
        forall|i: int|
            0 <= i < flags.len() && flags[i] ==> tags_of(flags, names).contains(#[trigger] names[i]),
    decreases flags.len(),
{
    if flags.len() > 0 {
        let d = flags.drop_last();
        lemma_tags_of_members(d, names);
        let rest = tags_of(d, names);
        let t = tags_of(flags, names);
        assert(t == if flags.last() {
            rest.push(names[flags.len() - 1])
        } else {
            rest
        });
        assert forall|k: int| 0 <= k < t.len() implies names_a_set_flag(flags, names, #[trigger] t[k]) by {
            if k < rest.len() {
                assert(t[k] == rest[k]);
                assert(names_a_set_flag(d, names, rest[k]));
                let j = choose|j: int| 0 <= j < d.len() && d[j] && rest[k] == names[j];
                assert(flags[j] == d[j]);
            } else {
                let j = flags.len() - 1;
                assert(flags[j] && t[k] == names[j]);
            }
        }
        assert forall|i: int| 0 <= i < flags.len() && flags[i] implies t.contains(#[trigger] names[i]) by {
            if i < d.len() {
                assert(d[i] == flags[i]);
                assert(rest.contains(names[i]));
                let k = choose|k: int| 0 <= k < rest.len() && rest[k] == names[i];
                assert(t[k] == rest[k]);
            } else {
                assert(t[rest.len() as int] == names[i]);
            }
        }
    }
}

/// Persisting the seen hints as tags and reading them back restores exactly
/// the same seen hints.
pub proof fn lemma_hint_tags_round_trip(flags: Seq<bool>)
    requires
        flags.len() == 3,
    ensures
        seen_from_tags(tags_of(flags, hint_tags())) == flags,
{
    reveal_strlit("layers");
    reveal_strlit("drc");
    reveal_strlit("share");
    let names = hint_tags();
    lemma_tags_of_members(flags, names);
    let t = tags_of(flags, names);
    assert forall|j: int| 0 <= j < 3 implies trim(#[trigger] names[j]) == names[j] && hint_named(
        names[j],
    ) == Some(hint_at(j)) by {
        crate::text::lemma_trim_of_trimmed(names[j]);
    }
    assert forall|i: int| 0 <= i < 3 implies #[trigger] seen_from_tags(t)[i] == flags[i] by {
        if flags[i] {
            assert(t.contains(names[i]));
            let k = choose|k: int| 0 <= k < t.len() && t[k] == names[i];
            assert(hint_named(trim(t[k])) == Some(hint_at(i)));
        }
        if seen_from_tags(t)[i] {
            let k = choose|k: int| 0 <= k < t.len() && hint_named(trim(t[k])) == Some(hint_at(i));
            assert(names_a_set_flag(flags, names, t[k]));
            let j = choose|j: int| 0 <= j < flags.len() && flags[j] && t[k] == names[j];
            assert(hint_at(j) == hint_at(i));
        }
    }
    assert(seen_from_tags(t) =~= flags);
}

/// A hint fires at most once: right after any firing it counts as seen, so
/// firing it again returns nothing and changes nothing.
pub proof fn lemma_hint_fires_once(seen: Seq<bool>, hint: Hint)
    requires
        seen.len() == 3,
    ensures
        seen.update(hint_index(hint), true)[hint_index(hint)],
        seen.update(hint_index(hint), true).update(hint_index(hint), true) == seen.update(
            hint_index(hint),
            true,
        ),
{
    assert(seen.update(hint_index(hint), true).update(hint_index(hint), true) =~= seen.update(
        hint_index(hint),
        true,
    ));
}

/// Persisting the completed tasks as tags and reading them back restores
/// exactly the same completed tasks.
pub proof fn lemma_task_tags_round_trip(flags: Seq<bool>)
    requires
        flags.len() == 4,
    ensures
        done_from_tags(tags_of(flags, task_tags())) == flags,
{
    reveal_strlit("open");
    reveal_strlit("drc");
    reveal_strlit("share");
    reveal_strlit("agent");
    let names = task_tags();
    lemma_tags_of_members(flags, names);
    let t = tags_of(flags, names);
    assert forall|j: int| 0 <= j < 4 implies trim(#[trigger] names[j]) == names[j] && task_named(
        names[j],
    ) == Some(task_at(j)) by {
        crate::text::lemma_trim_of_trimmed(names[j]);
    }
    assert forall|i: int| 0 <= i < 4 implies #[trigger] done_from_tags(t)[i] == flags[i] by {
        if flags[i] {
            assert(t.contains(names[i]));
            let k = choose|k: int| 0 <= k < t.len() && t[k] == names[i];
            assert(task_named(trim(t[k])) == Some(task_at(i)));
        }
        if done_from_tags(t)[i] {
            let k = choose|k: int| 0 <= k < t.len() && task_named(trim(t[k])) == Some(task_at(i));
            assert(names_a_set_flag(flags, names, t[k]));
            let j = choose|j: int| 0 <= j < flags.len() && flags[j] && t[k] == names[j];
            assert(task_at(j) == task_at(i));
        }
    }
    assert(done_from_tags(t) =~= flags);
}


/// A hint set always holds one seen flag per hint.
pub proof fn lemma_hints_len(h: Hints)
    ensures
        h@.len() == 3,
{
}

/// Two hint sets with the same seen flags are the same hint set.
pub proof fn lemma_hints_view_determines(a: Hints, b: Hints)
    requires
        a@ == b@,
    ensures
        a == b,
{
    vstd::array::axiom_array_ext_equal(a.seen, b.seen);
    assert(a.seen == b.seen);
}

/// Saving a hint set's seen tags and rebuilding from them gives back the same
/// hint set.
pub proof fn lemma_hints_round_trip(h: Hints)
    ensures
        seen_from_tags(tags_of(h@, hint_tags())) == h@,
{
    lemma_hints_len(h);
    lemma_hint_tags_round_trip(h@);
}

/// For any hint set, a hint fires at most once: after firing it is seen, every
/// other hint keeps its flag, and firing it again changes nothing.
pub proof fn lemma_hints_fire_once(h: Hints, hint: Hint)
    ensures
        h@.update(hint_index(hint), true)[hint_index(hint)],
        forall|i: int| 0 <= i < 3 && i != hint_index(hint) ==> #[trigger] h@.update(hint_index(hint), true)[i] == h@[i],
        h@.update(hint_index(hint), true).update(hint_index(hint), true) == h@.update(hint_index(hint), true),
{
    lemma_hints_len(h);
    lemma_hint_fires_once(h@, hint);
}

/// A checklist always holds one done flag per task.
pub proof fn lemma_checklist_len(c: Checklist)
    ensures
        c.done_flags().len() == 4,
{
}

/// Two checklists with the same done flags and dismissal are the same
/// checklist.
pub proof fn lemma_checklist_view_determines(a: Checklist, b: Checklist)
    requires
        a.done_flags() == b.done_flags(),
        a.dismissed_flag() == b.dismissed_flag(),
    ensures
        a == b,
{
    vstd::array::axiom_array_ext_equal(a.done, b.done);
    assert(a.done == b.done);
}

/// Saving a checklist's done tags and restoring from them gives back the same
/// done flags.
pub proof fn lemma_checklist_round_trip(c: Checklist)
    ensures
        done_from_tags(tags_of(c.done_flags(), task_tags())) == c.done_flags(),
{
    lemma_checklist_len(c);
    lemma_task_tags_round_trip(c.done_flags());
}

/// Completing a task marks it done, leaves every other task as it was, and
/// completing it again changes nothing.
pub proof fn lemma_checklist_complete_once(c: Checklist, task: Task)
    ensures
        c.done_flags().update(task_index(task), true)[task_index(task)],
        forall|i: int|
            0 <= i < 4 && i != task_index(task) ==> #[trigger] c.done_flags().update(task_index(task), true)[i]
                == c.done_flags()[i],
        c.done_flags().update(task_index(task), true).update(task_index(task), true) == c.done_flags().update(
            task_index(task),
            true,
        ),
{
    lemma_checklist_len(c);
    let u = c.done_flags().update(task_index(task), true);
    assert(u.update(task_index(task), true) =~= u);
}

proof fn lemma_count_true_full(flags: Seq<bool>)
    ensures
        count_true(flags) <= flags.len(),
        count_true(flags) == flags.len() <==> forall|i: int| 0 <= i < flags.len() ==> flags[i],
    decreases flags.len(),
{
    if flags.len() > 0 {
        let d = flags.drop_last();
        lemma_count_true_full(d);
        if forall|i: int| 0 <= i < flags.len() ==> flags[i] {
            assert forall|i: int| 0 <= i < d.len() implies d[i] by {
                assert(d[i] == flags[i]);
            }
            assert(flags.last() == flags[flags.len() - 1]);
        }
        if count_true(flags) == flags.len() {
            assert(flags.last());
            assert forall|i: int| 0 <= i < flags.len() implies flags[i] by {
                if i < d.len() {
                    assert(d[i] == flags[i]);
                }
            }
        }
    }
}

/// The card shows exactly while it is not dismissed and fewer than all four
/// tasks are done.
pub proof fn lemma_checklist_visible_iff_incomplete(c: Checklist)
    ensures
        (!c.dismissed_flag() && !(forall|i: int| 0 <= i < 4 ==> c.done_flags()[i])) <==> (
        !c.dismissed_flag() && count_true(c.done_flags()) < 4),
{
    lemma_checklist_len(c);
    lemma_count_true_full(c.done_flags());
}
} // verus!
