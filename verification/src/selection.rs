//! The shape-selection model and the rubber-band / select-by-layer builders.
//!
//! A selection is a set of indices into the flattened scene shape list. The
//! builders return the indices of the shapes a rubber band encloses or that lie
//! on a layer, in ascending order.
use vstd::prelude::*;
use std::collections::BTreeSet;
use vstd::std_specs::iter::IteratorSpec;
use vstd::std_specs::cmp::OrdSpec;
use crate::geom::{LayerId, Rect, ShapeInfo};

verus! {

broadcast use {vstd::std_specs::btree::group_btree_axioms, vstd::laws_cmp::group_laws_cmp};

proof fn lemma_keys_increasing(keys: Seq<&usize>)
    requires
        vstd::std_specs::btree::increasing_seq(keys),
    ensures
        forall|i: int, j: int| 0 <= i < j < keys.len() ==> *keys[i] < *keys[j],
{
    assert(vstd::laws_cmp::obeys_cmp::<usize>());
    assert(vstd::laws_cmp::obeys_cmp::<&usize>());
    vstd::std_specs::btree::axiom_increasing_seq_meaning(keys);
    assert forall|i: int, j: int| 0 <= i < j < keys.len() implies *keys[i] < *keys[j] by {
        assert(OrdSpec::cmp_spec(&keys[i], &keys[j]) is Less);
    }
}

/// `s` with `index` flipped: removed when present, added when absent.
pub open spec fn toggled(s: Set<usize>, index: usize) -> Set<usize> {
    if s.contains(index) {
        s.remove(index)
    } else {
        s.insert(index)
    }
}

/// Toggling the same index twice leaves a selection as it was.
pub proof fn lemma_toggle_twice(s: Set<usize>, index: usize)
    ensures
        toggled(toggled(s, index), index) == s,
{
    assert(toggled(toggled(s, index), index) =~= s);
}

/// A set of selected shape indices into the flattened scene list.
#[derive(Clone, PartialEq, Eq, Debug, Default)]
pub struct Selection {
    indices: BTreeSet<usize>,
}

impl View for Selection {
    type V = Set<usize>;

    /// The selected indices.
    closed spec fn view(&self) -> Set<usize> {
        self.indices@
    }
}

impl Selection {
    /// Creates an empty selection.
    pub fn new() -> (r: Self)
        ensures
            r@ == Set::<usize>::empty(),
    {
        Selection { indices: BTreeSet::new() }
    }

    /// Whether nothing is selected.
    pub fn is_empty(&self) -> (r: bool)
        ensures
            r == (self@ == Set::<usize>::empty()),
    {
        let r = self.indices.is_empty();
        proof {
            if !r {
                assert(!self@.is_empty());
                let x = choose|x: usize| self@.contains(x);
                assert(!Set::<usize>::empty().contains(x));
            }
        }
        r
    }

    /// The number of selected shapes.
    pub fn len(&self) -> (r: usize)
        ensures
            r == self@.len(),
    {
        self.indices.len()
    }

    /// Whether shape `index` is selected.
    pub fn contains(&self, index: usize) -> (r: bool)
        ensures
            r == self@.contains(index),
    {
        self.indices.contains(&index)
    }

    /// The selected indices in ascending order.
    pub fn iter(&self) -> (r: Vec<usize>)
        ensures
            r@.to_set() == self@,
            r@.len() == self@.len(),
            forall|i: int, j: int| 0 <= i < j < r@.len() ==> r@[i] < r@[j],
    {
        let mut out: Vec<usize> = Vec::new();
        let ghost keys = vstd::std_specs::btree::spec_btree_keys_iter(&self.indices).remaining();
        for x in it: self.indices.iter()
            invariant
                it.seq() == keys,
                out@ == keys.take(it.index() as int).map_values(|p: &usize| *p),
        {
            assert(keys.take(it.index() + 1).map_values(|p: &usize| *p) =~= out@.push(*x));
            out.push(*x);
        }
        proof {
            assert(out@ =~= keys.map_values(|p: &usize| *p));
            assert(keys.unref().to_set() == self@);
            assert(out@ =~= keys.unref());
            lemma_keys_increasing(keys);
        }
        out
    }

    /// Clears the selection.
    pub fn clear(&mut self)
        ensures
            final(self)@ == Set::<usize>::empty(),
    {
        self.indices.clear();
    }

    /// Replaces the selection with exactly `indices`.
    pub fn set(&mut self, indices: &[usize])
        ensures
            final(self)@ == indices@.to_set(),
    {
        self.indices.clear();
        for i in 0..indices.len()
            invariant
                self.indices@ == indices@.take(i as int).to_set(),
        {
            self.indices.insert(indices[i]);
            assert(indices@.take(i + 1).to_set() =~= indices@.take(i as int).to_set().insert(
                indices@[i as int],
            )) by {
                assert(indices@.take(i + 1) =~= indices@.take(i as int).push(indices@[i as int]));
                indices@.take(i as int).lemma_push_to_set_commute(indices@[i as int]);
            }
        }
        assert(indices@.take(indices@.len() as int) =~= indices@);
    }

    /// Selects a single shape, replacing the current selection.
    pub fn select_one(&mut self, index: usize)
        ensures
            final(self)@ == Set::<usize>::empty().insert(index),
    {
        self.indices.clear();
        self.indices.insert(index);
    }

    /// Adds `index` to the selection.
    pub fn add(&mut self, index: usize)
        ensures
            final(self)@ == old(self)@.insert(index),
    {
        self.indices.insert(index);
    }

    /// Toggles `index` in the selection, returning `true` if it is now selected.
    pub fn toggle(&mut self, index: usize) -> (r: bool)
        ensures
            r == !old(self)@.contains(index),
            final(self)@ == toggled(old(self)@, index),
    {
        if self.indices.contains(&index) {
            self.indices.remove(&index);
            false
        } else {
            self.indices.insert(index);
            true
        }
    }

    /// Unions `indices` into the selection.
    pub fn extend(&mut self, indices: &[usize])
        ensures
            final(self)@ == old(self)@.union(indices@.to_set()),
    {
        let ghost start = self@;
        for i in 0..indices.len()
            invariant
                self.indices@ == start.union(indices@.take(i as int).to_set()),
        {
            self.indices.insert(indices[i]);
            assert(indices@.take(i + 1) =~= indices@.take(i as int).push(indices@[i as int]));
            proof {
                indices@.take(i as int).lemma_push_to_set_commute(indices@[i as int]);
            }
            assert(self.indices@ =~= start.union(indices@.take(i + 1).to_set()));
        }
        assert(indices@.take(indices@.len() as int) =~= indices@);
    }

    /// Removes `indices` from the selection.
    pub fn subtract(&mut self, indices: &[usize])
        ensures
            final(self)@ == old(self)@.difference(indices@.to_set()),
    {
        let ghost start = self@;
        for i in 0..indices.len()
            invariant
                self.indices@ == start.difference(indices@.take(i as int).to_set()),
        {
            self.indices.remove(&indices[i]);
            assert(indices@.take(i + 1) =~= indices@.take(i as int).push(indices@[i as int]));
            proof {
                indices@.take(i as int).lemma_push_to_set_commute(indices@[i as int]);
            }
            assert(self.indices@ =~= start.difference(indices@.take(i + 1).to_set()));
        }
        assert(indices@.take(indices@.len() as int) =~= indices@);
    }
}

/// Whether `outer` fully contains `inner` (inclusive on all edges).
pub open spec fn encloses(outer: Rect, inner: Rect) -> bool {
    inner.min.x >= outer.min.x && inner.min.y >= outer.min.y && inner.max.x <= outer.max.x
        && inner.max.y <= outer.max.y
}

/// The indices `i` of `shapes`, ascending, for which `keep(i)` holds.
pub open spec fn indices_where(n: nat, keep: spec_fn(int) -> bool) -> Seq<usize>
    decreases n,
{
    if n == 0 {
        Seq::empty()
    } else {
        let rest = indices_where((n - 1) as nat, keep);
        if keep(n - 1) {
            rest.push((n - 1) as usize)
        } else {
            rest
        }
    }
}

/// Whether a shape is captured by a rubber band `rect`, optionally restricted to
/// `layer`.
pub open spec fn captured(s: ShapeInfo, rect: Rect, layer: Option<LayerId>) -> bool {
    encloses(rect, s.bbox) && match layer {
        Some(l) => s.layer == l,
        None => true,
    }
}

/// The indices, ascending, of the shapes a marquee `rect` captures, restricted to
/// `layer` when one is given.
pub open spec fn marquee(shapes: Seq<ShapeInfo>, rect: Rect, layer: Option<LayerId>) -> Seq<usize> {
    indices_where(shapes.len(), |i: int| captured(shapes[i], rect, layer))
}

/// The indices, ascending, of the shapes drawn on `layer`.
pub open spec fn on_layer(shapes: Seq<ShapeInfo>, layer: LayerId) -> Seq<usize> {
    indices_where(shapes.len(), |i: int| shapes[i].layer == layer)
}

/// The indices of every shape whose bounding box is fully contained in `rect`,
/// and (when `layer` is given) that lies on `layer`, in ascending order.
pub fn shapes_in_rect_on_layer(shapes: &[ShapeInfo], rect: Rect, layer: Option<LayerId>) -> (r:
    Vec<usize>)
    ensures
        r@ == marquee(shapes@, rect, layer),
{
    let mut out: Vec<usize> = Vec::new();
    for i in 0..shapes.len()
        invariant
            out@ == indices_where(i as nat, |k: int| captured(shapes@[k], rect, layer)),
    {
        let s = shapes[i];
        let keep = rect.contains_rect(&s.bbox) && match layer {
            Some(l) => s.layer == l,
            None => true,
        };
        if keep {
            out.push(i);
        }
    }
    out
}

/// The indices of every shape whose bounding box is fully contained in `rect`
/// (the shapes a rubber band captures), in ascending order.
pub fn shapes_in_rect(shapes: &[ShapeInfo], rect: Rect) -> (r: Vec<usize>)
    ensures
        r@ == marquee(shapes@, rect, None),
{
    shapes_in_rect_on_layer(shapes, rect, None)
}

/// The indices of every shape drawn on `layer`, in ascending order.
pub fn shapes_on_layer(shapes: &[ShapeInfo], layer: LayerId) -> (r: Vec<usize>)
    ensures
        r@ == on_layer(shapes@, layer),
{
    let mut out: Vec<usize> = Vec::new();
    for i in 0..shapes.len()
        invariant
            out@ == indices_where(i as nat, |k: int| shapes@[k].layer == layer),
    {
        if shapes[i].layer == layer {
            out.push(i);
        }
    }
    out
}

/// An index is listed by [`indices_where`] exactly when it is below `n` and kept.
pub proof fn lemma_indices_where_contains(n: nat, keep: spec_fn(int) -> bool, x: usize)
    requires
        n <= usize::MAX + 1,
    ensures
        indices_where(n, keep).contains(x) <==> (x < n && keep(x as int)),
    decreases n,
{
    if n > 0 {
        lemma_indices_where_contains((n - 1) as nat, keep, x);
        let rest = indices_where((n - 1) as nat, keep);
        if keep(n - 1) {
            let p = rest.push((n - 1) as usize);
            if x == n - 1 {
                assert(p[rest.len() as int] == x);
            }
            if p.contains(x) {
                let k = choose|k: int| 0 <= k < p.len() && p[k] == x;
                if k < rest.len() {
                    assert(rest[k] == x);
                }
            }
            if rest.contains(x) {
                let k = choose|k: int| 0 <= k < rest.len() && rest[k] == x;
                assert(p[k] == x);
            }
        }
    }
}

/// A marquee restricted to a layer selects exactly the shapes that the plain
/// marquee selects and that lie on that layer.
pub proof fn lemma_layer_marquee_is_intersection(shapes: Seq<ShapeInfo>, rect: Rect, layer: LayerId)
    requires
        shapes.len() <= usize::MAX,
    ensures
        forall|x: usize|
            #[trigger] marquee(shapes, rect, Some(layer)).contains(x) <==> (marquee(
                shapes,
                rect,
                None,
            ).contains(x) && on_layer(shapes, layer).contains(x)),
{
    assert forall|x: usize|
        #[trigger] marquee(shapes, rect, Some(layer)).contains(x) <==> (marquee(
            shapes,
            rect,
            None,
        ).contains(x) && on_layer(shapes, layer).contains(x)) by {
        lemma_indices_where_contains(shapes.len(), |i: int| captured(shapes[i], rect, Some(layer)), x);
        lemma_indices_where_contains(shapes.len(), |i: int| captured(shapes[i], rect, None), x);
        lemma_indices_where_contains(shapes.len(), |i: int| shapes[i].layer == layer, x);
    }
}

} // verus!
