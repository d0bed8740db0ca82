//! Saved selection sets and the cell/instance outline tree.
//!
//! * [`SavedSets`] names the current selection and restores it later. A
//!   snapshot is the set of selected shape indices at save time, stored sorted
//!   and without repeats, so a restore is order-stable however the selection
//!   was built.
//! * [`OutlineTree`] flattens a document's cell hierarchy into a list of
//!   clickable rows, each carrying the world rectangle the camera should frame
//!   when the row is clicked.
use vstd::prelude::*;
use crate::geom::{Point, Rect};
use crate::open::{lemma_text_lt_irreflexive, lemma_text_lt_total, lemma_text_lt_transitive, text_lt, text_lt_chars, texts_of};
use crate::text::{
    chars_eq_str, chars_of, decimal, extend_str, push_decimal, push_signed_decimal, signed_decimal,
    string_of, trim, trim_chars,
};

verus! {

broadcast use vstd::seq_lib::group_to_multiset_ensures;

/// One named selection snapshot.
#[derive(Clone, Debug, PartialEq, Eq)]
pub struct SavedSet {
    /// The user-supplied name, trimmed.
    pub name: String,
    /// The selected indices, ascending and without repeats.
    pub indices: Vec<usize>,
}

/// A named store of selection snapshots, in insertion order.
#[derive(Clone, Debug, Default, PartialEq, Eq)]
pub struct SavedSets {
    sets: Vec<SavedSet>,
}

/// A saved set as `(name, indices)`.
pub open spec fn set_model(s: SavedSet) -> (Seq<char>, Seq<usize>) {
    (s.name@, s.indices@)
}

impl View for SavedSets {
    type V = Seq<(Seq<char>, Seq<usize>)>;

    closed spec fn view(&self) -> Seq<(Seq<char>, Seq<usize>)> {
        self.sets@.map_values(|s: SavedSet| set_model(s))
    }
}

/// Whether `s` is strictly ascending.
pub open spec fn strictly_ascending(s: Seq<usize>) -> bool {
    forall|i: int, j: int| 0 <= i < j < s.len() ==> s[i] < s[j]
}

/// Whether `r` holds exactly the values of `s`, ascending and without repeats.
pub open spec fn is_sorted_set_of(r: Seq<usize>, s: Seq<usize>) -> bool {
    strictly_ascending(r) && forall|x: usize| r.contains(x) <==> s.contains(x)
}

/// The position of the first set named `name`, if any.
pub open spec fn find_name(sets: Seq<(Seq<char>, Seq<usize>)>, name: Seq<char>) -> Option<int>
    decreases sets.len(),
{
    if sets.len() == 0 {
        None
    } else if sets[0].0 == name {
        Some(0)
    } else {
        match find_name(sets.drop_first(), name) {
            Some(i) => Some(i + 1),
            None => None,
        }
    }
}

proof fn lemma_find_name(sets: Seq<(Seq<char>, Seq<usize>)>, name: Seq<char>)
    ensures
        find_name(sets, name) matches Some(i) ==> 0 <= i < sets.len() && sets[i].0 == name
            && forall|j: int| 0 <= j < i ==> sets[j].0 != name,
        find_name(sets, name) is None ==> forall|j: int| 0 <= j < sets.len() ==> sets[j].0 != name,
    decreases sets.len(),
{
    if sets.len() > 0 {
        lemma_find_name(sets.drop_first(), name);
        if sets[0].0 != name {
            assert forall|j: int| 1 <= j < sets.len() implies sets[j] == sets.drop_first()[j - 1] by {}
        }
    }
}

proof fn lemma_find_name_first(sets: Seq<(Seq<char>, Seq<usize>)>, name: Seq<char>, i: int)
    requires
        0 <= i < sets.len(),
        sets[i].0 == name,
        forall|j: int| 0 <= j < i ==> sets[j].0 != name,
    ensures
        find_name(sets, name) == Some(i),
    decreases sets.len(),
{
    if i > 0 {
        assert forall|j: int| 0 <= j < i - 1 implies sets.drop_first()[j].0 != name by {
            assert(sets.drop_first()[j] == sets[j + 1]);
        }
        lemma_find_name_first(sets.drop_first(), name, i - 1);
    }
}

/// `sets` without the sets named `name`, in order.
pub open spec fn without_name(sets: Seq<(Seq<char>, Seq<usize>)>, name: Seq<char>) -> Seq<
    (Seq<char>, Seq<usize>),
>
    decreases sets.len(),
{
    if sets.len() == 0 {
        sets
    } else {
        let rest = without_name(sets.drop_last(), name);
        if sets.last().0 != name {
            rest.push(sets.last())
        } else {
            rest
        }
    }
}

/// Whether `after` is `before` with `indices` saved under `name`: the set
/// already named `name` is replaced in place, or else a new one is appended;
/// the saved indices are ascending without repeats.
pub open spec fn saved_under(
    before: Seq<(Seq<char>, Seq<usize>)>,
    after: Seq<(Seq<char>, Seq<usize>)>,
    name: Seq<char>,
    indices: Seq<usize>,
) -> bool {
    match find_name(before, name) {
        Some(i) => after.len() == before.len() && after[i].0 == name && is_sorted_set_of(
            after[i].1,
            indices,
        ) && forall|j: int| 0 <= j < before.len() && j != i ==> after[j] == before[j],
        None => after.len() == before.len() + 1 && after.last().0 == name && is_sorted_set_of(
            after.last().1,
            indices,
        ) && after.drop_last() == before,
    }
}

/// Restoring a name right after saving under it gives back the saved indices,
/// ascending and without repeats.
pub proof fn lemma_restore_after_save(
    before: Seq<(Seq<char>, Seq<usize>)>,
    after: Seq<(Seq<char>, Seq<usize>)>,
    name: Seq<char>,
    indices: Seq<usize>,
)
    requires
        saved_under(before, after, name, indices),
    ensures
        find_name(after, name) matches Some(i) && is_sorted_set_of(after[i].1, indices),
{
    lemma_find_name(before, name);
    match find_name(before, name) {
        Some(i) => {
            lemma_find_name_first(after, name, i);
        },
        None => {
            let i = before.len() as int;
            assert forall|j: int| 0 <= j < i implies after[j].0 != name by {
                assert(after[j] == after.drop_last()[j]);
            }
            lemma_find_name_first(after, name, i);
        },
    }
}

/// After removing a name, no set of that name is left to restore.
pub proof fn lemma_restore_after_remove(sets: Seq<(Seq<char>, Seq<usize>)>, name: Seq<char>)
    ensures
        find_name(without_name(sets, name), name) is None,
    decreases sets.len(),
{
    lemma_without_name_excludes(sets, name);
    lemma_find_name(without_name(sets, name), name);
    if find_name(without_name(sets, name), name) is Some {
        let i = find_name(without_name(sets, name), name)->0;
        assert(without_name(sets, name)[i].0 == name);
    }
}

proof fn lemma_without_name_excludes(sets: Seq<(Seq<char>, Seq<usize>)>, name: Seq<char>)
    ensures
        forall|j: int|
            0 <= j < without_name(sets, name).len() ==> #[trigger] without_name(sets, name)[j].0
                != name,
    decreases sets.len(),
{
    if sets.len() > 0 {
        lemma_without_name_excludes(sets.drop_last(), name);
        let rest = without_name(sets.drop_last(), name);
        if sets.last().0 != name {
            assert forall|j: int| 0 <= j < rest.len() + 1 implies #[trigger] rest.push(
                sets.last(),
            )[j].0 != name by {
                if j < rest.len() {
                    assert(rest.push(sets.last())[j] == rest[j]);
                }
            }
        }
    }
}

fn sorted_unique(indices: &[usize]) -> (r: Vec<usize>)
    ensures
        is_sorted_set_of(r@, indices@),
{
    let mut out: Vec<usize> = Vec::new();
    let mut i: usize = 0;
    while i < indices.len()
        invariant
            i <= indices.len(),
            strictly_ascending(out@),
            forall|x: usize| out@.contains(x) <==> indices@.subrange(0, i as int).contains(x),
        decreases indices.len() - i,
    {
        let v = indices[i];
        let mut pos: usize = 0;
        while pos < out.len() && out[pos] < v
            invariant
                pos <= out.len(),
                forall|k: int| 0 <= k < pos ==> out@[k] < v,
            decreases out.len() - pos,
        {
            pos = pos + 1;
        }
        let ghost before = out@;
        if pos < out.len() && out[pos] == v {
            assert forall|x: usize| out@.contains(x) <==> (before.contains(x) || x == v) by {
                if x == v {
                    assert(out@[pos as int] == v);
                }
            }
        } else {
            out.insert(pos, v);
            assert forall|a: int, b: int| 0 <= a < b < out@.len() implies out@[a] < out@[b] by {
                if b < pos {
                } else if a < pos && b == pos {
                } else if a < pos && b > pos {
                    assert(out@[b] == before[b - 1]);
                    assert(before[b - 1] >= v || before[b - 1] > v) by {
                        if pos < before.len() {
                            assert(before[pos as int] >= v);
                        }
                    }
                } else if a == pos {
                    assert(out@[b] == before[b - 1]);
                    assert(before[pos as int] >= v);
                    assert(before[pos as int] != v);
                } else {
                    assert(out@[a] == before[a - 1] && out@[b] == before[b - 1]);
                }
            }
            assert forall|x: usize| out@.contains(x) <==> (before.contains(x) || x == v) by {
                if out@.contains(x) {
                    let k = choose|k: int| 0 <= k < out@.len() && out@[k] == x;
                    if k < pos {
                        assert(before[k] == x);
                    } else if k > pos {
                        assert(before[k - 1] == x);
                    }
                }
                if before.contains(x) {
                    let k = choose|k: int| 0 <= k < before.len() && before[k] == x;
                    if k < pos {
                        assert(out@[k] == x);
                    } else {
                        assert(out@[k + 1] == x);
                    }
                }
                if x == v {
                    assert(out@[pos as int] == v);
                }
            }
        }
        assert forall|x: usize| indices@.subrange(0, i + 1).contains(x) <==> (indices@.subrange(
            0,
            i as int,
        ).contains(x) || x == v) by {
            let s1 = indices@.subrange(0, i + 1);
            let s0 = indices@.subrange(0, i as int);
            if s1.contains(x) {
                let k = choose|k: int| 0 <= k < s1.len() && s1[k] == x;
                if k < i {
                    assert(s0[k] == x);
                }
            }
            if s0.contains(x) {
                let k = choose|k: int| 0 <= k < s0.len() && s0[k] == x;
                assert(s1[k] == x);
            }
            if x == v {
                assert(s1[i as int] == v);
            }
        }
        assert forall|x: usize| out@.contains(x) <==> indices@.subrange(0, i + 1).contains(x) by {
            assert(before.contains(x) <==> indices@.subrange(0, i as int).contains(x));
        }
        i = i + 1;
    }
    assert(indices@.subrange(0, indices.len() as int) =~= indices@);
    out
}

fn names_equal(a: &String, b: &Vec<char>) -> (r: bool)
    ensures
        r == (a@ == b@),
{
    let av = chars_of(a.as_str());
    crate::text::chars_eq(&av, b.as_slice())
}

fn copy_indices(v: &Vec<usize>) -> (r: Vec<usize>)
    ensures
        r@ == v@,
{
    let mut out: Vec<usize> = Vec::new();
    let mut i: usize = 0;
    while i < v.len()
        invariant
            i <= v.len(),
            out@ == v@.subrange(0, i as int),
        decreases v.len() - i,
    {
        out.push(v[i]);
        i = i + 1;
    }
    out
}

impl SavedSets {
    /// An empty store.
    pub fn new() -> (r: SavedSets)
        ensures
            r@ == Seq::<(Seq<char>, Seq<usize>)>::empty(),
    {
        let r = SavedSets { sets: Vec::new() };
        assert(r@ =~= Seq::<(Seq<char>, Seq<usize>)>::empty());
        r
    }

    fn position(&self, name: &Vec<char>) -> (r: Option<usize>)
        ensures
            match r {
                Some(i) => find_name(self@, name@) == Some(i as int) && i < self@.len(),
                None => find_name(self@, name@) is None,
            },
    {
        let mut i: usize = 0;
        while i < self.sets.len()
            invariant
                i <= self.sets@.len(),
                forall|j: int| 0 <= j < i ==> self@[j].0 != name@,
            decreases self.sets@.len() - i,
        {
            if names_equal(&self.sets[i].name, name) {
                proof {
                    lemma_find_name_first(self@, name@, i as int);
                }
                return Some(i);
            }
            i = i + 1;
        }
        proof {
            lemma_find_name(self@, name@);
            if find_name(self@, name@) is Some {
                let k = find_name(self@, name@)->0;
                assert(self@[k].0 != name@);
            }
        }
        None
    }

    /// Saves `indices` under `name` (trimmed), replacing the set already saved
    /// under that name or else appending a new one; the indices are stored
    /// ascending without repeats. A blank name is refused: `false`, nothing
    /// changed.
    pub fn save(&mut self, name: &str, indices: &[usize]) -> (r: bool)
        ensures
            r == (trim(name@).len() > 0),
            !r ==> final(self)@ == old(self)@,
            r ==> saved_under(old(self)@, final(self)@, trim(name@), indices@),
    {
        let nv = chars_of(name);
        let t = trim_chars(&nv);
        if t.len() == 0 {
            return false;
        }
        let set = SavedSet { name: string_of(&t), indices: sorted_unique(indices) };
        match self.position(&t) {
            Some(i) => {
                let ghost m = set_model(set);
                self.sets.set(i, set);
                assert(self@ =~= old(self)@.update(i as int, m));
            },
            None => {
                self.sets.push(set);
                assert(self@.drop_last() =~= old(self)@);
            },
        }
        true
    }

    /// The indices saved under `name` (trimmed), if any.
    pub fn restore(&self, name: &str) -> (r: Option<&[usize]>)
        ensures
            match find_name(self@, trim(name@)) {
                Some(i) => r matches Some(s) && s@ == self@[i].1,
                None => r is None,
            },
    {
        let nv = chars_of(name);
        let t = trim_chars(&nv);
        match self.position(&t) {
            Some(i) => Some(self.sets[i].indices.as_slice()),
            None => None,
        }
    }

    /// Removes every set named `name` (trimmed); `true` if one was removed.
    pub fn remove(&mut self, name: &str) -> (r: bool)
        ensures
            final(self)@ == without_name(old(self)@, trim(name@)),
            r == (final(self)@.len() != old(self)@.len()),
    {
        let nv = chars_of(name);
        let t = trim_chars(&nv);
        let mut kept: Vec<SavedSet> = Vec::new();
        let mut i: usize = 0;
        while i < self.sets.len()
            invariant
                i <= self.sets@.len(),
                self@ == old(self)@,
                t@ == trim(name@),
                kept@.map_values(|s: SavedSet| set_model(s)) == without_name(
                    old(self)@.subrange(0, i as int),
                    t@,
                ),
            decreases self.sets@.len() - i,
        {
            assert(old(self)@.subrange(0, i + 1).drop_last() =~= old(self)@.subrange(0, i as int));
            let e = &self.sets[i];
            if !names_equal(&e.name, &t) {
                let copy = SavedSet { name: e.name.clone(), indices: copy_indices(&e.indices) };
                kept.push(copy);
                assert(kept@.map_values(|s: SavedSet| set_model(s)) =~= without_name(
                    old(self)@.subrange(0, i as int),
                    t@,
                ).push(self@[i as int]));
            }
            i = i + 1;
        }
        assert(old(self)@.subrange(0, old(self)@.len() as int) =~= old(self)@);
        let before = self.sets.len();
        self.sets = kept;
        self.sets.len() != before
    }

    /// All saved sets, in insertion order.
    pub fn sets(&self) -> (r: &[SavedSet])
        ensures
            r@.map_values(|s: SavedSet| set_model(s)) == self@,
    {
        self.sets.as_slice()
    }

    /// The number of saved sets.
    pub fn len(&self) -> (r: usize)
        ensures
            r == self@.len(),
    {
        self.sets.len()
    }

    /// Whether no sets are saved.
    pub fn is_empty(&self) -> (r: bool)
        ensures
            r == (self@.len() == 0),
    {
        self.sets.len() == 0
    }
}


// ---------------------------------------------------------------------------
// The cell/instance outline
// ---------------------------------------------------------------------------

/// What an outline row refers to.
#[derive(Clone, Copy, PartialEq, Eq, Debug, Structural)]
pub enum OutlineKind {
    /// A cell definition (a row for the cell itself).
    Cell,
    /// A single placement of a child cell inside a parent cell.
    Instance,
    /// An arrayed placement of a child cell inside a parent cell.
    Array,
}

/// One row in the outline tree: a cell or a placement, with where to locate it.
#[derive(Clone, PartialEq, Eq, Debug)]
pub struct OutlineNode {
    /// What this row represents.
    pub kind: OutlineKind,
    /// The label to show (cell name, or `child @ (x, y)` for a placement).
    pub label: String,
    /// Indentation depth for the tree view (0 for top-level cells).
    pub depth: usize,
    /// The world-space rectangle the camera should frame when this row is
    /// clicked, or `None` when the target has no geometry to frame.
    pub locate: Option<Rect>,
}

/// A row as plain values: `(kind, label, depth, locate)`.
pub open spec fn row_model(n: OutlineNode) -> (OutlineKind, Seq<char>, usize, Option<Rect>) {
    (n.kind, n.label@, n.depth, n.locate)
}

/// A single placement of a child cell, as the outline reads it from the
/// document.
#[derive(Clone, PartialEq, Eq, Debug)]
pub struct Placement {
    /// The placed cell's name.
    pub cell: String,
    /// The placement origin (the translation of its transform).
    pub origin: Point,
    /// The placed cell's bounding box mapped through the placement transform,
    /// or `None` when the placed cell has no geometry.
    pub locate: Option<Rect>,
}

/// An arrayed placement of a child cell, as the outline reads it.
#[derive(Clone, PartialEq, Eq, Debug)]
pub struct ArrayPlacement {
    /// The placed cell's name.
    pub cell: String,
    /// The origin of the array's first element.
    pub origin: Point,
    /// The number of columns.
    pub columns: u32,
    /// The number of rows.
    pub rows: u32,
    /// The placed cell's bounding box mapped through the array's base
    /// transform, or `None` when the placed cell has no geometry.
    pub locate: Option<Rect>,
}

/// A cell of the document as the outline reads it: its name, bounding box,
/// and placements in declared order.
#[derive(Clone, PartialEq, Eq, Debug)]
pub struct OutlineCell {
    /// The cell name.
    pub name: String,
    /// The cell's bounding box, or `None` for a cell with no geometry.
    pub bbox: Option<Rect>,
    /// The cell's single placements, in declared order.
    pub instances: Vec<Placement>,
    /// The cell's arrayed placements, in declared order.
    pub arrays: Vec<ArrayPlacement>,
}

/// The label of a single placement: `child @ (x, y)`.
pub open spec fn placement_label(cell: Seq<char>, at: Point) -> Seq<char> {
    cell + " @ ("@ + signed_decimal(at.x as int) + ", "@ + signed_decimal(at.y as int) + ")"@
}

/// The label of an arrayed placement: `child [CxR] @ (x, y)`.
pub open spec fn array_label(a: ArrayPlacement) -> Seq<char> {
    a.cell@ + " ["@ + decimal(a.columns as nat) + "x"@ + decimal(a.rows as nat) + "] @ ("@
        + signed_decimal(a.origin.x as int) + ", "@ + signed_decimal(a.origin.y as int) + ")"@
}

/// The position of the first cell named `name`, if any.
pub open spec fn first_named(cells: Seq<OutlineCell>, name: Seq<char>) -> Option<int>
    decreases cells.len(),
{
    if cells.len() == 0 {
        None
    } else if cells[0].name@ == name {
        Some(0)
    } else {
        match first_named(cells.drop_first(), name) {
            Some(i) => Some(i + 1),
            None => None,
        }
    }
}

/// The row of a single placement under a cell at `depth`.
pub open spec fn instance_row(p: Placement, depth: usize) -> (OutlineKind, Seq<char>, usize, Option<Rect>) {
    (OutlineKind::Instance, placement_label(p.cell@, p.origin), (depth + 1) as usize, p.locate)
}

/// The row of an arrayed placement under a cell at `depth`.
pub open spec fn array_row(a: ArrayPlacement, depth: usize) -> (OutlineKind, Seq<char>, usize, Option<Rect>) {
    (OutlineKind::Array, array_label(a), (depth + 1) as usize, a.locate)
}

/// The rows for the cell named `name` at `depth`: the cell's own row, framing
/// its bounding box, then one row per single placement and one per array, in
/// declared order. A name no cell carries gives the cell row alone, with
/// nothing to frame.
pub open spec fn cell_rows(cells: Seq<OutlineCell>, name: Seq<char>, depth: usize) -> Seq<
    (OutlineKind, Seq<char>, usize, Option<Rect>),
> {
    match first_named(cells, name) {
        None => seq![(OutlineKind::Cell, name, depth, None)],
        Some(i) => seq![(OutlineKind::Cell, name, depth, cells[i].bbox)] + cells[i].instances@.map_values(
            |p: Placement| instance_row(p, depth),
        ) + cells[i].arrays@.map_values(|a: ArrayPlacement| array_row(a, depth)),
    }
}

/// The outline rooted at `roots`: each root's rows at depth 0, in order.
pub open spec fn outline_rows(cells: Seq<OutlineCell>, roots: Seq<Seq<char>>) -> Seq<
    (OutlineKind, Seq<char>, usize, Option<Rect>),
>
    decreases roots.len(),
{
    if roots.len() == 0 {
        Seq::empty()
    } else {
        outline_rows(cells, roots.drop_last()) + cell_rows(cells, roots.last(), 0)
    }
}

/// Whether `names` is in text order.
pub open spec fn text_sorted(names: Seq<Seq<char>>) -> bool {
    forall|i: int, j: int| 0 <= i < j < names.len() ==> !text_lt(#[trigger] names[j], #[trigger] names[i])
}

/// The names of `cells`, in the given order.
pub open spec fn cell_names(cells: Seq<OutlineCell>) -> Seq<Seq<char>> {
    cells.map_values(|c: OutlineCell| c.name@)
}

/// Whether `roots` are the names to root the outline at: the declared top
/// cells, or, when none are declared, every cell name in text order.
pub open spec fn is_root_names(roots: Seq<Seq<char>>, cells: Seq<OutlineCell>, tops: Seq<Seq<char>>) -> bool {
    if tops.len() > 0 {
        roots == tops
    } else {
        text_sorted(roots) && roots.to_multiset() == cell_names(cells).to_multiset()
    }
}

/// Text order decides a list of names completely: two lists in text order that
/// hold the same names, each as often, are equal. So the root names, and with
/// them the whole outline, are determined by the document.
pub proof fn lemma_text_sorted_unique(a: Seq<Seq<char>>, b: Seq<Seq<char>>)
    requires
        text_sorted(a),
        text_sorted(b),
        a.to_multiset() == b.to_multiset(),
    ensures
        a == b,
    decreases a.len(),
{
    assert(a.len() == a.to_multiset().len());
    assert(b.len() == b.to_multiset().len());
    if a.len() == 0 {
        assert(a =~= b);
    } else {
        let x = a[0];
        let y = b[0];
        assert(a.contains(x));
        assert(b.contains(y));
        assert(a.to_multiset().count(x) > 0);
        assert(b.to_multiset().count(x) > 0);
        assert(b.contains(x));
        assert(b.to_multiset().count(y) > 0);
        assert(a.to_multiset().count(y) > 0);
        assert(a.contains(y));
        let j = choose|j: int| 0 <= j < b.len() && b[j] == x;
        if j > 0 {
            assert(!text_lt(b[j], b[0]));
        }
        let k = choose|k: int| 0 <= k < a.len() && a[k] == y;
        if k > 0 {
            assert(!text_lt(a[k], a[0]));
        }
        if x != y {
            lemma_text_lt_total(x, y);
        }
        let ra = a.drop_first();
        let rb = b.drop_first();
        assert(a =~= ra.insert(0, x));
        assert(b =~= rb.insert(0, x));
        assert(ra.to_multiset().insert(x) == rb.to_multiset().insert(x));
        assert(ra.to_multiset() =~= rb.to_multiset()) by {
            assert forall|z: Seq<char>| ra.to_multiset().count(z) == rb.to_multiset().count(z) by {
                assert(ra.to_multiset().insert(x).count(z) == rb.to_multiset().insert(x).count(z));
            }
        }
        assert forall|p: int, q: int| 0 <= p < q < ra.len() implies !text_lt(#[trigger] ra[q], #[trigger] ra[p]) by {
            assert(ra[q] == a[q + 1] && ra[p] == a[p + 1]);
        }
        assert forall|p: int, q: int| 0 <= p < q < rb.len() implies !text_lt(#[trigger] rb[q], #[trigger] rb[p]) by {
            assert(rb[q] == b[q + 1] && rb[p] == b[p + 1]);
        }
        lemma_text_sorted_unique(ra, rb);
        assert(a =~= b);
    }
}

proof fn lemma_first_named(cells: Seq<OutlineCell>, name: Seq<char>, i: int)
    requires
        0 <= i <= cells.len(),
        forall|j: int| 0 <= j < i ==> (#[trigger] cells[j]).name@ != name,
    ensures
        i < cells.len() && cells[i].name@ == name ==> first_named(cells, name) == Some(i),
        i == cells.len() ==> first_named(cells, name) is None,
    decreases i,
{
    if i > 0 {
        let rest = cells.drop_first();
        assert forall|j: int| 0 <= j < i - 1 implies (#[trigger] rest[j]).name@ != name by {
            assert(rest[j] == cells[j + 1]);
        }
        lemma_first_named(rest, name, i - 1);
        assert(cells[0].name@ != name);
    }
}

fn find_cell(cells: &[OutlineCell], name: &[char]) -> (r: Option<usize>)
    ensures
        match r {
            Some(i) => i < cells@.len() && first_named(cells@, name@) == Some(i as int),
            None => first_named(cells@, name@) is None,
        },
{
    let mut i: usize = 0;
    while i < cells.len()
        invariant
            i <= cells@.len(),
            forall|j: int| 0 <= j < i ==> (#[trigger] cells@[j]).name@ != name@,
        decreases cells@.len() - i,
    {
        if chars_eq_str(name, cells[i].name.as_str()) {
            proof {
                lemma_first_named(cells@, name@, i as int);
            }
            return Some(i);
        }
        i = i + 1;
    }
    proof {
        lemma_first_named(cells@, name@, i as int);
    }
    None
}

fn placement_text(cell: &str, at: Point) -> (r: String)
    ensures
        r@ == placement_label(cell@, at),
{
    let mut out = chars_of(cell);
    extend_str(&mut out, " @ (");
    push_signed_decimal(&mut out, at.x as i64);
    extend_str(&mut out, ", ");
    push_signed_decimal(&mut out, at.y as i64);
    extend_str(&mut out, ")");
    assert(out@ =~= placement_label(cell@, at));
    string_of(&out)
}

fn array_text(a: &ArrayPlacement) -> (r: String)
    ensures
        r@ == array_label(*a),
{
    let mut out = chars_of(a.cell.as_str());
    extend_str(&mut out, " [");
    push_decimal(&mut out, a.columns as u64);
    extend_str(&mut out, "x");
    push_decimal(&mut out, a.rows as u64);
    extend_str(&mut out, "] @ (");
    push_signed_decimal(&mut out, a.origin.x as i64);
    extend_str(&mut out, ", ");
    push_signed_decimal(&mut out, a.origin.y as i64);
    extend_str(&mut out, ")");
    assert(out@ =~= array_label(*a));
    string_of(&out)
}

/// Appends the rows of the cell named `name` at `depth` to `nodes`.
fn push_cell(cells: &[OutlineCell], name: &[char], depth: usize, nodes: &mut Vec<OutlineNode>)
    requires
        depth < usize::MAX,
    ensures
        final(nodes)@.map_values(|n: OutlineNode| row_model(n)) == old(nodes)@.map_values(
            |n: OutlineNode| row_model(n),
        ) + cell_rows(cells@, name@, depth),
{
    let ghost base = old(nodes)@.map_values(|n: OutlineNode| row_model(n));
    let found = find_cell(cells, name);
    let locate = match found {
        Some(i) => cells[i].bbox,
        None => None,
    };
    nodes.push(OutlineNode { kind: OutlineKind::Cell, label: string_of(name), depth, locate });
    let ghost head = seq![(OutlineKind::Cell, name@, depth, locate)];
    assert(nodes@.map_values(|n: OutlineNode| row_model(n)) =~= base + head);
    match found {
        None => {},
        Some(ci) => {
            let cell = &cells[ci];
            let ghost inst_rows = cell.instances@.map_values(|p: Placement| instance_row(p, depth));
            let ghost arr_rows = cell.arrays@.map_values(|a: ArrayPlacement| array_row(a, depth));
            let mut k: usize = 0;
            while k < cell.instances.len()
                invariant
                    k <= cell.instances@.len(),
                    depth < usize::MAX,
                    inst_rows == cell.instances@.map_values(|p: Placement| instance_row(p, depth)),
                    nodes@.map_values(|n: OutlineNode| row_model(n)) == base + head + inst_rows.take(
                        k as int,
                    ),
                decreases cell.instances@.len() - k,
            {
                let p = &cell.instances[k];
                let label = placement_text(p.cell.as_str(), p.origin);
                let ghost before = nodes@;
                let node = OutlineNode {
                    kind: OutlineKind::Instance,
                    label,
                    depth: depth + 1,
                    locate: p.locate,
                };
                nodes.push(node);
                proof {
                    assert(row_model(node) == inst_rows[k as int]);
                    assert(inst_rows.take(k + 1) =~= inst_rows.take(k as int).push(inst_rows[k as int]));
                    assert(nodes@ =~= before.push(node));
                    assert(nodes@.map_values(|n: OutlineNode| row_model(n)) =~= before.map_values(
                        |n: OutlineNode| row_model(n),
                    ).push(row_model(node)));
                }
                k = k + 1;
            }
            assert(inst_rows.take(inst_rows.len() as int) =~= inst_rows);
            let mut m: usize = 0;
            while m < cell.arrays.len()
                invariant
                    m <= cell.arrays@.len(),
                    depth < usize::MAX,
                    arr_rows == cell.arrays@.map_values(|a: ArrayPlacement| array_row(a, depth)),
                    nodes@.map_values(|n: OutlineNode| row_model(n)) == base + head + inst_rows
                        + arr_rows.take(m as int),
                decreases cell.arrays@.len() - m,
            {
                let a = &cell.arrays[m];
                let label = array_text(a);
                let ghost before = nodes@;
                let node = OutlineNode {
                    kind: OutlineKind::Array,
                    label,
                    depth: depth + 1,
                    locate: a.locate,
                };
                nodes.push(node);
                proof {
                    assert(row_model(node) == arr_rows[m as int]);
                    assert(arr_rows.take(m + 1) =~= arr_rows.take(m as int).push(arr_rows[m as int]));
                    assert(nodes@ =~= before.push(node));
                    assert(nodes@.map_values(|n: OutlineNode| row_model(n)) =~= before.map_values(
                        |n: OutlineNode| row_model(n),
                    ).push(row_model(node)));
                }
                m = m + 1;
            }
            assert(arr_rows.take(arr_rows.len() as int) =~= arr_rows);
            assert(cell_rows(cells@, name@, depth) =~= head + inst_rows + arr_rows);
        },
    }
}

/// The names to root the outline at: the declared top cells, or every cell
/// name in text order when none are declared.
pub fn root_names(cells: &[OutlineCell], top_cells: &[String]) -> (r: Vec<Vec<char>>)
    ensures
        is_root_names(r@.map_values(|v: Vec<char>| v@), cells@, texts_of(top_cells@)),
{
    let mut out: Vec<Vec<char>> = Vec::new();
    if top_cells.len() > 0 {
        let mut i: usize = 0;
        while i < top_cells.len()
            invariant
                i <= top_cells@.len(),
                out@.map_values(|v: Vec<char>| v@) == texts_of(top_cells@).take(i as int),
            decreases top_cells@.len() - i,
        {
            let ghost before = out@;
            let c = chars_of(top_cells[i].as_str());
            out.push(c);
            assert(out@ =~= before.push(c));
            assert(texts_of(top_cells@).take(i + 1) =~= texts_of(top_cells@).take(i as int).push(c@));
            assert(out@.map_values(|v: Vec<char>| v@) =~= texts_of(top_cells@).take(i + 1));
            i = i + 1;
        }
        assert(texts_of(top_cells@).take(top_cells@.len() as int) =~= texts_of(top_cells@));
        return out;
    }
    let ghost names = cell_names(cells@);
    assert(names.take(0) =~= Seq::<Seq<char>>::empty());
    assert(out@.map_values(|v: Vec<char>| v@) =~= Seq::<Seq<char>>::empty());
    let mut i: usize = 0;
    while i < cells.len()
        invariant
            i <= cells@.len(),
            names == cell_names(cells@),
            text_sorted(out@.map_values(|v: Vec<char>| v@)),
            out@.map_values(|v: Vec<char>| v@).to_multiset() == names.take(i as int).to_multiset(),
        decreases cells@.len() - i,
    {
        let x = chars_of(cells[i].name.as_str());
        proof {
            assert(names.take(i + 1) =~= names.take(i as int).push(x@));
        }
        let ghost before = out@.map_values(|v: Vec<char>| v@);
        let mut pos: usize = 0;
        while pos < out.len() && !text_lt_chars(&x, &out[pos])
            invariant
                pos <= out@.len(),
                before == out@.map_values(|v: Vec<char>| v@),
                forall|k: int| 0 <= k < pos ==> !text_lt(x@, #[trigger] before[k]),
            decreases out@.len() - pos,
        {
            pos = pos + 1;
        }
        let ghost raw_before = out@;
        out.insert(pos, x);
        proof {
            let after = out@.map_values(|v: Vec<char>| v@);
            assert(out@ == raw_before.insert(pos as int, x));
            assert(after =~= before.insert(pos as int, x@));
            assert(after.to_multiset() == before.to_multiset().insert(x@));
            assert(names.take(i + 1).to_multiset() == names.take(i as int).to_multiset().insert(x@));
            assert forall|a: int, b: int| 0 <= a < b < after.len() implies !text_lt(
                #[trigger] after[b],
                #[trigger] after[a],
            ) by {
                if b < pos {
                    assert(after[a] == before[a] && after[b] == before[b]);
                } else if b == pos {
                    assert(after[a] == before[a]);
                } else if a == pos {
                    assert(after[b] == before[b - 1]);
                    assert(text_lt(x@, before[pos as int]));
                    if text_lt(before[b - 1], x@) {
                        lemma_text_lt_transitive(before[b - 1], x@, before[pos as int]);
                        if b - 1 == pos {
                            lemma_text_lt_irreflexive(before[pos as int]);
                        }
                    }
                } else if a < pos {
                    assert(after[a] == before[a] && after[b] == before[b - 1]);
                } else {
                    assert(after[a] == before[a - 1] && after[b] == before[b - 1]);
                }
            }
        }
        i = i + 1;
    }
    proof {
        assert(names.take(cells@.len() as int) =~= names);
    }
    out
}

/// A flattened, clickable view of a document's cell hierarchy: each root cell,
/// then each of its single placements and arrays as indented rows.
#[derive(Clone, PartialEq, Eq, Debug)]
pub struct OutlineTree {
    nodes: Vec<OutlineNode>,
}

impl View for OutlineTree {
    type V = Seq<(OutlineKind, Seq<char>, usize, Option<Rect>)>;

    closed spec fn view(&self) -> Seq<(OutlineKind, Seq<char>, usize, Option<Rect>)> {
        self.nodes@.map_values(|n: OutlineNode| row_model(n))
    }
}

impl Default for OutlineTree {
    fn default() -> (r: OutlineTree)
        ensures
            r@ == Seq::<(OutlineKind, Seq<char>, usize, Option<Rect>)>::empty(),
    {
        let t = OutlineTree { nodes: Vec::new() };
        assert(t@ =~= Seq::<(OutlineKind, Seq<char>, usize, Option<Rect>)>::empty());
        t
    }
}

impl OutlineTree {
    /// Builds the outline of a document given by its cells and declared top
    /// cells. Top cells appear in declared order; if none are declared, every
    /// cell is listed in name order so nothing is hidden. Under each root come
    /// its single placements then its arrays, each labelled with the child
    /// cell and the placement origin and carrying the rectangle to frame.
    pub fn build(cells: &[OutlineCell], top_cells: &[String]) -> (t: OutlineTree)
        ensures
            exists|roots: Seq<Seq<char>>|
                is_root_names(roots, cells@, texts_of(top_cells@)) && #[trigger] outline_rows(
                    cells@,
                    roots,
                ) == t@,
    {
        let roots = root_names(cells, top_cells);
        let ghost rv = roots@.map_values(|v: Vec<char>| v@);
        let mut nodes: Vec<OutlineNode> = Vec::new();
        let mut i: usize = 0;
        while i < roots.len()
            invariant
                i <= roots@.len(),
                rv == roots@.map_values(|v: Vec<char>| v@),
                nodes@.map_values(|n: OutlineNode| row_model(n)) == outline_rows(
                    cells@,
                    rv.take(i as int),
                ),
            decreases roots@.len() - i,
        {
            push_cell(cells, &roots[i], 0, &mut nodes);
            proof {
                assert(rv.take(i + 1).drop_last() =~= rv.take(i as int));
                assert(rv.take(i + 1).last() == roots@[i as int]@);
            }
            i = i + 1;
        }
        assert(rv.take(roots@.len() as int) =~= rv);
        let t = OutlineTree { nodes };
        assert(outline_rows(cells@, rv) == t@);
        t
    }

    /// The outline rows, in display order.
    pub fn nodes(&self) -> (r: &[OutlineNode])
        ensures
            r@.map_values(|n: OutlineNode| row_model(n)) == self@,
    {
        self.nodes.as_slice()
    }

    /// The number of rows.
    pub fn len(&self) -> (r: usize)
        ensures
            r == self@.len(),
    {
        self.nodes.len()
    }

    /// Whether the outline is empty.
    pub fn is_empty(&self) -> (r: bool)
        ensures
            r == (self@.len() == 0),
    {
        self.nodes.len() == 0
    }
}

} // verus!
