//! The replay theater's decisions: where playback stands over a loaded
//! transcript, what the transport buttons do to that position, which cell to
//! draw, and the verdict on the replayed document's hash.
//!
//! Re-applying a record's command to the live session, and the float pacing of
//! playback ticks, belong to the caller; this module decides positions and
//! verdicts from plain values.
use vstd::prelude::*;
use crate::open::{text_lt, text_lt_chars};
use crate::text::{chars_eq_str, chars_of, extend_chars, extend_str, push_decimal, decimal, split, split_chars, string_of, trim, trim_chars};

verus! {

/// The verdict on the replayed document versus the transcript's recorded hash.
#[derive(Clone, Copy, PartialEq, Eq, Debug, Structural)]
pub enum HashCheck {
    /// Playback has not reached the end of the transcript yet.
    Pending,
    /// Playback finished but the transcript carried no final hash to check.
    Unverifiable,
    /// The replayed document hash matches the recorded one.
    Match,
    /// The replayed document hash differs: the transcript is not reproducible.
    Mismatch,
}

/// The verdict for a playback that has applied `applied` of `total` records,
/// whose document now hashes to `replayed`, against the recorded `expected`
/// hash: pending until every record of a non-empty transcript is applied,
/// then unverifiable without a recorded hash, else match or mismatch.
pub open spec fn hash_verdict(applied: nat, total: nat, expected: Option<u64>, replayed: u64) -> HashCheck {
    if applied < total || total == 0 {
        HashCheck::Pending
    } else {
        match expected {
            None => HashCheck::Unverifiable,
            Some(e) => if e == replayed {
                HashCheck::Match
            } else {
                HashCheck::Mismatch
            },
        }
    }
}

/// Decides the hash verdict (see [`hash_verdict`]).
pub fn hash_check_of(applied: usize, total: usize, expected: Option<u64>, replayed: u64) -> (r: HashCheck)
    ensures
        r == hash_verdict(applied as nat, total as nat, expected, replayed),
{
    if applied < total || total == 0 {
        return HashCheck::Pending;
    }
    match expected {
        None => HashCheck::Unverifiable,
        Some(e) => if e == replayed {
            HashCheck::Match
        } else {
            HashCheck::Mismatch
        },
    }
}

/// Whether cell `a` (name and shape count) is a strictly better choice to
/// draw than `b`: more shapes, or as many with a name earlier in text order.
pub open spec fn draws_before(a: (Seq<char>, nat), b: (Seq<char>, nat)) -> bool {
    a.1 > b.1 || (a.1 == b.1 && text_lt(a.0, b.0))
}

/// The cell with the most shapes, ties going to the name earliest in text
/// order; `cells` must be non-empty.
pub open spec fn largest_cell(cells: Seq<(Seq<char>, nat)>) -> (Seq<char>, nat)
    decreases cells.len(),
{
    if cells.len() <= 1 {
        cells[0]
    } else {
        let m = largest_cell(cells.drop_last());
        if draws_before(m, cells.last()) {
            m
        } else {
            cells.last()
        }
    }
}

/// The cells as `(name, shape count)` values.
pub open spec fn cell_counts(cells: Seq<(String, usize)>) -> Seq<(Seq<char>, nat)> {
    cells.map_values(|c: (String, usize)| (c.0@, c.1 as nat))
}

/// The cell the theater draws: the first declared top cell when the document
/// has it, else the cell with the most shapes (ties by name), else none.
pub open spec fn render_cell_choice(tops: Seq<Seq<char>>, cells: Seq<(Seq<char>, nat)>) -> Option<Seq<char>> {
    if tops.len() > 0 && exists|i: int| 0 <= i < cells.len() && (#[trigger] cells[i]).0 == tops[0] {
        Some(tops[0])
    } else if cells.len() == 0 {
        None
    } else {
        Some(largest_cell(cells).0)
    }
}

fn has_cell(cells: &[(String, usize)], name: &String) -> (r: bool)
    ensures
        r == exists|i: int| 0 <= i < cells@.len() && (#[trigger] cell_counts(cells@)[i]).0 == name@,
{
    let v = chars_of(name.as_str());
    let mut i: usize = 0;
    while i < cells.len()
        invariant
            i <= cells@.len(),
            v@ == name@,
            forall|j: int| 0 <= j < i ==> (#[trigger] cell_counts(cells@)[j]).0 != name@,
        decreases cells@.len() - i,
    {
        if chars_eq_str(&v, cells[i].0.as_str()) {
            assert(cell_counts(cells@)[i as int].0 == name@);
            return true;
        }
        i = i + 1;
    }
    false
}

/// Chooses the cell to draw from the document's declared top cells and its
/// cells as `(name, shape count)` in document order (see
/// [`render_cell_choice`]).
pub fn render_cell_of(top_cells: &[String], cells: &[(String, usize)]) -> (r: Option<String>)
    ensures
        match r {
            Some(s) => render_cell_choice(top_cells@.map_values(|t: String| t@), cell_counts(cells@))
                == Some(s@),
            None => render_cell_choice(top_cells@.map_values(|t: String| t@), cell_counts(cells@))
                is None,
        },
{
    let ghost tops = top_cells@.map_values(|t: String| t@);
    let ghost counts = cell_counts(cells@);
    if top_cells.len() > 0 && has_cell(cells, &top_cells[0]) {
        let v = chars_of(top_cells[0].as_str());
        return Some(string_of(&v));
    }
    if cells.len() == 0 {
        return None;
    }
    let mut best_name = chars_of(cells[0].0.as_str());
    let mut best_count = cells[0].1;
    assert(counts.take(1) =~= seq![counts[0]]);
    let mut i: usize = 1;
    while i < cells.len()
        invariant
            1 <= i <= cells@.len(),
            counts == cell_counts(cells@),
            (best_name@, best_count as nat) == largest_cell(counts.take(i as int)),
        decreases cells@.len() - i,
    {
        let name = chars_of(cells[i].0.as_str());
        let count = cells[i].1;
        proof {
            assert(counts.take(i + 1).drop_last() =~= counts.take(i as int));
            assert(counts.take(i + 1).last() == (name@, count as nat));
        }
        let keep = best_count > count || (best_count == count && text_lt_chars(&best_name, &name));
        if !keep {
            best_name = name;
            best_count = count;
        }
        i = i + 1;
    }
    assert(counts.take(cells@.len() as int) =~= counts);
    Some(string_of(&best_name))
}

/// Where playback stands over a loaded transcript: how many of its records
/// have been applied, and whether ticks advance it.
#[derive(Clone, Copy, PartialEq, Eq, Debug, Structural)]
pub struct Playback {
    applied: usize,
    total: usize,
    playing: bool,
}

/// The playback after one step forward: one more record applied when any is
/// left; reaching the end stops playback.
pub closed spec fn stepped(p: Playback) -> Playback {
    let applied = if p.applied < p.total {
        (p.applied + 1) as usize
    } else {
        p.applied
    };
    Playback { applied, total: p.total, playing: p.playing && applied < p.total }
}

/// The playback moved to `position` records applied, clamped to the
/// transcript length.
pub closed spec fn sought(p: Playback, position: usize) -> Playback {
    Playback { applied: if position <= p.total { position } else { p.total }, ..p }
}

/// The playback moved one record back, or left at the start.
pub closed spec fn stepped_back(p: Playback) -> Playback {
    sought(p, if p.applied > 0 { (p.applied - 1) as usize } else { 0 })
}

/// The playback after the play button: playing unless at the end.
pub closed spec fn played(p: Playback) -> Playback {
    Playback { playing: p.playing || p.applied < p.total, ..p }
}

impl Playback {
    /// Whether the position lies within the transcript.
    pub closed spec fn wf(self) -> bool {
        self.applied <= self.total
    }

    /// The number of records applied.
    pub closed spec fn applied_spec(self) -> nat {
        self.applied as nat
    }

    /// The number of records loaded.
    pub closed spec fn total_spec(self) -> nat {
        self.total as nat
    }

    /// Whether ticks advance the position.
    pub closed spec fn playing_spec(self) -> bool {
        self.playing
    }

    /// A transcript of `total` records, rewound and paused.
    pub fn load(total: usize) -> (r: Playback)
        ensures
            r.wf(),
            r.applied_spec() == 0,
            r.total_spec() == total,
            !r.playing_spec(),
    {
        Playback { applied: 0, total, playing: false }
    }

    /// `(applied, total)` playback progress in records.
    pub fn progress(&self) -> (r: (usize, usize))
        ensures
            r.0 == self.applied_spec(),
            r.1 == self.total_spec(),
    {
        (self.applied, self.total)
    }

    /// Whether every record has been applied.
    pub fn at_end(&self) -> (r: bool)
        ensures
            r == (self.applied_spec() >= self.total_spec()),
    {
        self.applied >= self.total
    }

    /// Whether playback is advancing on ticks.
    pub fn is_playing(&self) -> (r: bool)
        ensures
            r == self.playing_spec(),
    {
        self.playing
    }

    /// Starts playback; a no-op at the end of the transcript.
    pub fn play(&mut self)
        ensures
            *final(self) == played(*old(self)),
            final(self).wf() == old(self).wf(),
            final(self).applied_spec() == old(self).applied_spec(),
            final(self).total_spec() == old(self).total_spec(),
            final(self).playing_spec() == (old(self).playing_spec() || old(self).applied_spec() < old(
                self,
            ).total_spec()),
    {
        if self.applied < self.total {
            self.playing = true;
        }
    }

    /// Pauses playback, keeping the position.
    pub fn pause(&mut self)
        ensures
            final(self).wf() == old(self).wf(),
            final(self).applied_spec() == old(self).applied_spec(),
            final(self).total_spec() == old(self).total_spec(),
            !final(self).playing_spec(),
    {
        self.playing = false;
    }

    /// Applies one more record, if any is left; `true` when one was applied.
    pub fn step_forward(&mut self) -> (r: bool)
        requires
            old(self).wf(),
        ensures
            *final(self) == stepped(*old(self)),
            final(self).wf(),
            r == (old(self).applied_spec() < old(self).total_spec()),
            final(self).applied_spec() == if r {
                old(self).applied_spec() + 1
            } else {
                old(self).applied_spec()
            },
            final(self).total_spec() == old(self).total_spec(),
            final(self).playing_spec() == (old(self).playing_spec() && final(self).applied_spec()
                < final(self).total_spec()),
    {
        if self.applied >= self.total {
            self.playing = false;
            return false;
        }
        self.applied = self.applied + 1;
        if self.applied >= self.total {
            self.playing = false;
        }
        true
    }

    /// Moves to `position` records applied, clamped to the transcript
    /// length, and returns the new position; the caller replays the records
    /// up to it from the start.
    pub fn seek(&mut self, position: usize) -> (r: usize)
        ensures
            *final(self) == sought(*old(self), position),
            final(self).wf(),
            r == final(self).applied_spec(),
            r == if position <= old(self).total_spec() {
                position as nat
            } else {
                old(self).total_spec()
            },
            final(self).total_spec() == old(self).total_spec(),
            final(self).playing_spec() == old(self).playing_spec(),
    {
        let p = if position <= self.total {
            position
        } else {
            self.total
        };
        self.applied = p;
        p
    }

    /// Steps one record backwards: a seek to one fewer record applied, or to
    /// the start when none is.
    pub fn step_back(&mut self) -> (r: usize)
        requires
            old(self).wf(),
        ensures
            *final(self) == stepped_back(*old(self)),
            final(self).wf(),
            r == final(self).applied_spec(),
            r == if old(self).applied_spec() > 0 {
                (old(self).applied_spec() - 1) as nat
            } else {
                0
            },
            final(self).total_spec() == old(self).total_spec(),
            final(self).playing_spec() == old(self).playing_spec(),
    {
        let target = if self.applied > 0 {
            self.applied - 1
        } else {
            0
        };
        self.seek(target)
    }

    /// The index of the record most recently applied, if any.
    pub fn current_index(&self) -> (r: Option<usize>)
        requires
            self.wf(),
        ensures
            match r {
                Some(i) => i + 1 == self.applied_spec() && i < self.total_spec(),
                None => self.applied_spec() == 0,
            },
    {
        if self.applied == 0 {
            None
        } else {
            Some(self.applied - 1)
        }
    }
}

/// A step back undoes a step forward taken before the end: the position is
/// the one stepped from.
pub proof fn lemma_step_back_undoes_step(p: Playback)
    requires
        p.wf(),
        p.applied_spec() < p.total_spec(),
    ensures
        stepped_back(stepped(p)).applied_spec() == p.applied_spec(),
{
}

/// Play at the end of the transcript leaves playback paused, and after a
/// step that reaches the end playback is paused.
pub proof fn lemma_end_stays_paused(p: Playback)
    requires
        p.wf(),
        !p.playing_spec(),
        p.applied_spec() == p.total_spec(),
    ensures
        !played(p).playing_spec(),
        !stepped(played(p)).playing_spec(),
{
}

/// Seeking is idempotent and never leaves the transcript.
pub proof fn lemma_seek_clamps(p: Playback, position: usize)
    requires
        p.wf(),
    ensures
        sought(p, position).wf(),
        sought(sought(p, position), position) == sought(p, position),
        position >= p.total_spec() ==> sought(p, position).applied_spec() == p.total_spec(),
{
}


/// A transcript line the loader could not parse.
#[derive(Clone, PartialEq, Eq, Debug)]
pub struct LoadError {
    /// One-based line number of the offending line.
    pub line: usize,
    /// What went wrong with it.
    pub detail: String,
}

impl LoadError {
    /// The message this error shows: `line N: detail`.
    pub fn message(&self) -> (r: String)
        ensures
            r@ == "line "@ + decimal(self.line as nat) + ": "@ + self.detail@,
    {
        let mut out: Vec<char> = Vec::new();
        extend_str(&mut out, "line ");
        push_decimal(&mut out, self.line as u64);
        extend_str(&mut out, ": ");
        let d = chars_of(self.detail.as_str());
        extend_chars(&mut out, &d);
        assert(out@ =~= "line "@ + decimal(self.line as nat) + ": "@ + self.detail@);
        string_of(&out)
    }
}

/// The non-blank lines among `pieces`, trimmed, each with its one-based line
/// number.
pub open spec fn numbered_lines(pieces: Seq<Seq<char>>) -> Seq<(nat, Seq<char>)>
    decreases pieces.len(),
{
    if pieces.len() == 0 {
        Seq::empty()
    } else {
        let rest = numbered_lines(pieces.drop_last());
        let t = trim(pieces.last());
        if t.len() > 0 {
            rest.push((pieces.len(), t))
        } else {
            rest
        }
    }
}

/// The lines of a transcript file that carry content: each non-blank line,
/// trimmed, with its one-based line number, in order. Each is one JSON
/// command record or the `{"final_hash": ...}` trailer; blank lines are
/// skipped.
pub fn transcript_lines(text: &str) -> (r: Vec<(usize, String)>)
    ensures
        r@.map_values(|e: (usize, String)| (e.0 as nat, e.1@)) == numbered_lines(split(text@, '\n')),
{
    let chars = chars_of(text);
    let pieces = split_chars(&chars, '\n');
    let ghost ps = pieces@.map_values(|v: Vec<char>| v@);
    let mut out: Vec<(usize, String)> = Vec::new();
    let mut i: usize = 0;
    while i < pieces.len()
        invariant
            i <= pieces@.len(),
            ps == pieces@.map_values(|v: Vec<char>| v@),
            ps == split(text@, '\n'),
            out@.map_values(|e: (usize, String)| (e.0 as nat, e.1@)) == numbered_lines(ps.take(i as int)),
        decreases pieces@.len() - i,
    {
        let t = trim_chars(&pieces[i]);
        let ghost before = out@;
        proof {
            assert(ps.take(i + 1).drop_last() =~= ps.take(i as int));
            assert(ps.take(i + 1).last() == pieces@[i as int]@);
        }
        if t.len() > 0 {
            let line = string_of(&t);
            let number: usize = i + 1;
            out.push((number, line));
            assert(out@ =~= before.push((number, line)));
            assert(out@.map_values(|e: (usize, String)| (e.0 as nat, e.1@)) =~= before.map_values(
                |e: (usize, String)| (e.0 as nat, e.1@),
            ).push(((i + 1) as nat, t@)));
        }
        i = i + 1;
    }
    assert(ps.take(pieces@.len() as int) =~= ps);
    out
}

} // verus!
