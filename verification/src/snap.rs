//! Geometry-aware snapping and user guides, all integer DBU arithmetic.
//!
//! The cursor snaps to two things besides the background grid: nearby shape
//! geometry (vertices, edge projections, edge midpoints, bounding-box centers)
//! and user guide lines. A shape's snap targets come from
//! [`shape_candidates`]; once each candidate is resolved to the point nearest
//! the cursor, [`nearest_geometry`] picks the winner, [`SnapState::snap_to_guides`]
//! snaps to guides, and [`best_snap`] combines the two.
use vstd::prelude::*;
use crate::geom::{dist_sq, DrawShape, Point, ShapeKind};

verus! {

/// What a snap landed on, used to label the on-canvas indicator.
#[derive(Clone, Copy, PartialEq, Eq, Debug, Structural)]
pub enum SnapKind {
    /// A shape vertex (rectangle corner, polygon or path vertex).
    Vertex,
    /// The nearest point along a shape edge.
    Edge,
    /// The midpoint of a shape edge.
    Midpoint,
    /// The center of a shape's bounding box.
    Center,
    /// A point pinned by a user guide line.
    Guide,
}

/// The caption text of a snap kind.
pub open spec fn kind_label(kind: SnapKind) -> Seq<char> {
    match kind {
        SnapKind::Vertex => "vertex"@,
        SnapKind::Edge => "edge"@,
        SnapKind::Midpoint => "midpoint"@,
        SnapKind::Center => "center"@,
        SnapKind::Guide => "guide"@,
    }
}

impl SnapKind {
    /// A short human label for the snap indicator caption.
    pub fn label(self) -> (r: &'static str)
        ensures
            r@ == kind_label(self),
    {
        match self {
            SnapKind::Vertex => "vertex",
            SnapKind::Edge => "edge",
            SnapKind::Midpoint => "midpoint",
            SnapKind::Center => "center",
            SnapKind::Guide => "guide",
        }
    }
}

/// The tie-break rank of a snap kind, lower wins: a vertex beats a midpoint or
/// center, which beat a bare edge projection; guides rank last.
pub open spec fn priority_of(kind: SnapKind) -> u8 {
    match kind {
        SnapKind::Vertex => 0,
        SnapKind::Midpoint => 1,
        SnapKind::Center => 2,
        SnapKind::Edge => 3,
        SnapKind::Guide => 4,
    }
}

fn kind_priority(kind: SnapKind) -> (r: u8)
    ensures
        r == priority_of(kind),
{
    match kind {
        SnapKind::Vertex => 0,
        SnapKind::Midpoint => 1,
        SnapKind::Center => 2,
        SnapKind::Edge => 3,
        SnapKind::Guide => 4,
    }
}

/// The result of a successful snap: where the cursor landed and what it caught.
#[derive(Clone, Copy, PartialEq, Eq, Debug, Structural)]
pub struct SnapHint {
    /// The snapped world point, in DBU.
    pub point: Point,
    /// What the point snapped to.
    pub kind: SnapKind,
}

/// A single thing the cursor can snap to: a discrete point of some kind, or an
/// edge whose snap point is the cursor's projection onto it.
#[derive(Clone, Copy, PartialEq, Eq, Debug, Structural)]
pub enum SnapCandidate {
    /// A discrete point target of the given kind.
    Point {
        /// The target position in DBU.
        at: Point,
        /// What kind of feature this point is.
        kind: SnapKind,
    },
    /// An edge from `a` to `b`.
    Segment {
        /// One endpoint in DBU.
        a: Point,
        /// The other endpoint in DBU.
        b: Point,
    },
}

/// Which way a guide line runs.
#[derive(Clone, Copy, PartialEq, Eq, Debug, Structural)]
pub enum Axis {
    /// A horizontal guide, pinning a world `y`.
    Horizontal,
    /// A vertical guide, pinning a world `x`.
    Vertical,
}

/// A single draggable guide line at a fixed world coordinate.
#[derive(Clone, Copy, PartialEq, Eq, Debug, Structural)]
pub struct Guide {
    /// Whether the guide is horizontal (pins `y`) or vertical (pins `x`).
    pub axis: Axis,
    /// The world coordinate the guide sits at, in DBU: `y` if horizontal, `x`
    /// if vertical.
    pub coord: i32,
}

impl Guide {
    /// A horizontal guide pinning world `y`.
    pub fn horizontal(y: i32) -> (r: Guide)
        ensures
            r == (Guide { axis: Axis::Horizontal, coord: y }),
    {
        Guide { axis: Axis::Horizontal, coord: y }
    }

    /// A vertical guide pinning world `x`.
    pub fn vertical(x: i32) -> (r: Guide)
        ensures
            r == (Guide { axis: Axis::Vertical, coord: x }),
    {
        Guide { axis: Axis::Vertical, coord: x }
    }
}

/// The user guides plus the switches for geometry and guide snapping.
#[derive(Clone, PartialEq, Eq, Debug)]
pub struct SnapState {
    /// Whether the cursor snaps to nearby shape geometry.
    pub geometry_enabled: bool,
    /// Whether the cursor snaps to user guide lines.
    pub guide_enabled: bool,
    /// The user guides, in insertion order.
    pub guides: Vec<Guide>,
}

impl Default for SnapState {
    /// Both kinds of snapping on, no guides.
    fn default() -> (r: SnapState)
        ensures
            r.geometry_enabled,
            r.guide_enabled,
            r.guides@ == Seq::<Guide>::empty(),
    {
        SnapState { geometry_enabled: true, guide_enabled: true, guides: Vec::new() }
    }
}

/// `|a - b|`.
pub open spec fn abs_diff(a: int, b: int) -> int {
    if a >= b {
        a - b
    } else {
        b - a
    }
}

/// The nearest guide on `axis` to `target` among `guides`, within `radius`,
/// as `(distance, coordinate)`; the earliest of equally near guides wins.
pub open spec fn nearest_guide(guides: Seq<Guide>, axis: Axis, target: int, radius: int) -> Option<
    (int, i32),
>
    decreases guides.len(),
{
    if guides.len() == 0 {
        None
    } else {
        let prev = nearest_guide(guides.drop_last(), axis, target, radius);
        let g = guides.last();
        let d = abs_diff(g.coord as int, target);
        if g.axis == axis && d <= radius && (match prev {
            None => true,
            Some(p) => d < p.0,
        }) {
            Some((d, g.coord))
        } else {
            prev
        }
    }
}

/// Where guide snapping puts `raw`: the nearest vertical guide in range pins
/// `x`, the nearest horizontal one pins `y`; `None` when guide snapping is off,
/// the radius is not positive, or no guide is in range.
pub open spec fn guide_snap(guides: Seq<Guide>, enabled: bool, raw: Point, radius: int) -> Option<
    SnapHint,
> {
    let bx = nearest_guide(guides, Axis::Vertical, raw.x as int, radius);
    let by = nearest_guide(guides, Axis::Horizontal, raw.y as int, radius);
    if !enabled || radius <= 0 || (bx is None && by is None) {
        None
    } else {
        Some(
            SnapHint {
                point: Point {
                    x: match bx {
                        Some(b) => b.1,
                        None => raw.x,
                    },
                    y: match by {
                        Some(b) => b.1,
                        None => raw.y,
                    },
                },
                kind: SnapKind::Guide,
            },
        )
    }
}

impl SnapState {
    /// Adds a guide, keeping the list free of exact duplicates.
    pub fn add_guide(&mut self, guide: Guide)
        ensures
            final(self).guides@ == (if old(self).guides@.contains(guide) {
                old(self).guides@
            } else {
                old(self).guides@.push(guide)
            }),
            final(self).geometry_enabled == old(self).geometry_enabled,
            final(self).guide_enabled == old(self).guide_enabled,
    {
        let mut i: usize = 0;
        while i < self.guides.len()
            invariant
                i <= self.guides@.len(),
                self.guides@ == old(self).guides@,
                self.geometry_enabled == old(self).geometry_enabled,
                self.guide_enabled == old(self).guide_enabled,
                forall|j: int| 0 <= j < i ==> self.guides@[j] != guide,
            decreases self.guides@.len() - i,
        {
            if self.guides[i] == guide {
                return;
            }
            i = i + 1;
        }
        self.guides.push(guide);
    }

    /// Removes the guide at `index`, if it exists.
    pub fn remove_guide(&mut self, index: usize)
        ensures
            final(self).guides@ == (if index < old(self).guides@.len() {
                old(self).guides@.remove(index as int)
            } else {
                old(self).guides@
            }),
            final(self).geometry_enabled == old(self).geometry_enabled,
            final(self).guide_enabled == old(self).guide_enabled,
    {
        if index < self.guides.len() {
            self.guides.remove(index);
        }
    }

    /// Removes every guide.
    pub fn clear_guides(&mut self)
        ensures
            final(self).guides@ == Seq::<Guide>::empty(),
            final(self).geometry_enabled == old(self).geometry_enabled,
            final(self).guide_enabled == old(self).guide_enabled,
    {
        self.guides.clear();
    }

    /// Snaps `raw` to the nearest guide within `radius_dbu`, if guide snapping
    /// is on: a vertical guide pins `x`, a horizontal one pins `y`, and with
    /// both in range the cursor lands on their crossing. The nearest guide on
    /// each axis wins.
    pub fn snap_to_guides(&self, raw: Point, radius_dbu: i64) -> (r: Option<SnapHint>)
        ensures
            r == guide_snap(self.guides@, self.guide_enabled, raw, radius_dbu as int),
    {
        if !self.guide_enabled || radius_dbu <= 0 {
            return None;
        }
        let mut best_x: Option<(i64, i32)> = None;
        let mut best_y: Option<(i64, i32)> = None;
        let mut i: usize = 0;
        while i < self.guides.len()
            invariant
                i <= self.guides@.len(),
                match best_x {
                    Some(b) => nearest_guide(
                        self.guides@.take(i as int),
                        Axis::Vertical,
                        raw.x as int,
                        radius_dbu as int,
                    ) == Some((b.0 as int, b.1)),
                    None => nearest_guide(
                        self.guides@.take(i as int),
                        Axis::Vertical,
                        raw.x as int,
                        radius_dbu as int,
                    ) is None,
                },
                match best_y {
                    Some(b) => nearest_guide(
                        self.guides@.take(i as int),
                        Axis::Horizontal,
                        raw.y as int,
                        radius_dbu as int,
                    ) == Some((b.0 as int, b.1)),
                    None => nearest_guide(
                        self.guides@.take(i as int),
                        Axis::Horizontal,
                        raw.y as int,
                        radius_dbu as int,
                    ) is None,
                },
            decreases self.guides@.len() - i,
        {
            let g = self.guides[i];
            proof {
                assert(self.guides@.take(i + 1).drop_last() =~= self.guides@.take(i as int));
                assert(self.guides@.take(i + 1).last() == g);
            }
            match g.axis {
                Axis::Vertical => {
                    let diff = g.coord as i64 - raw.x as i64;
                    let d = if diff < 0 {
                        -diff
                    } else {
                        diff
                    };
                    let closer = match best_x {
                        None => true,
                        Some(b) => d < b.0,
                    };
                    if d <= radius_dbu && closer {
                        best_x = Some((d, g.coord));
                    }
                },
                Axis::Horizontal => {
                    let diff = g.coord as i64 - raw.y as i64;
                    let d = if diff < 0 {
                        -diff
                    } else {
                        diff
                    };
                    let closer = match best_y {
                        None => true,
                        Some(b) => d < b.0,
                    };
                    if d <= radius_dbu && closer {
                        best_y = Some((d, g.coord));
                    }
                },
            }
            i = i + 1;
        }
        proof {
            assert(self.guides@.take(self.guides@.len() as int) =~= self.guides@);
        }
        if best_x.is_none() && best_y.is_none() {
            return None;
        }
        let x = match best_x {
            Some(b) => b.1,
            None => raw.x,
        };
        let y = match best_y {
            Some(b) => b.1,
            None => raw.y,
        };
        Some(SnapHint { point: Point::new(x, y), kind: SnapKind::Guide })
    }
}

/// The squared snap radius, saturating at `i64::MAX`.
pub open spec fn radius_sq(radius: int) -> int {
    if radius * radius > i64::MAX {
        i64::MAX as int
    } else {
        radius * radius
    }
}

/// The winner among `hints` as `(squared distance, priority, hint)`: of the
/// hints within squared radius `rsq` of `raw`, the nearest, then the one of
/// highest-priority kind, then the earliest.
pub open spec fn nearest_hint(raw: Point, rsq: int, hints: Seq<SnapHint>) -> Option<
    (int, u8, SnapHint),
>
    decreases hints.len(),
{
    if hints.len() == 0 {
        None
    } else {
        let prev = nearest_hint(raw, rsq, hints.drop_last());
        let h = hints.last();
        let d = dist_sq(raw, h.point);
        let p = priority_of(h.kind);
        if d > rsq {
            prev
        } else {
            match prev {
                None => Some((d, p, h)),
                Some(b) => if d < b.0 || (d == b.0 && p < b.1) {
                    Some((d, p, h))
                } else {
                    prev
                },
            }
        }
    }
}

/// The geometry snap of `raw` among the resolved candidates `hints` within
/// `radius`; `None` when nothing is in range or the radius is not positive.
pub open spec fn geometry_snap(raw: Point, radius: int, hints: Seq<SnapHint>) -> Option<SnapHint> {
    if radius <= 0 {
        None
    } else {
        match nearest_hint(raw, radius_sq(radius), hints) {
            Some(b) => Some(b.2),
            None => None,
        }
    }
}

/// Finds the nearest resolved geometry candidate to `raw` within `radius_dbu`.
///
/// Each entry of `resolved` is a candidate already resolved to its point
/// nearest `raw` (a vertex, midpoint or center as-is, an edge to the cursor's
/// projection onto it). The closest one within the radius wins; equally close
/// ones go to the higher-priority kind, then to the earlier entry.
pub fn nearest_geometry(raw: Point, radius_dbu: i64, resolved: &[SnapHint]) -> (r: Option<SnapHint>)
    ensures
        r == geometry_snap(raw, radius_dbu as int, resolved@),
{
    if radius_dbu <= 0 {
        return None;
    }
    assert(0 < radius_dbu * radius_dbu <= 0x7fff_ffff_ffff_ffff * 0x7fff_ffff_ffff_ffff)
        by (nonlinear_arith)
        requires
            0 < radius_dbu <= 0x7fff_ffff_ffff_ffff,
    ;
    let r2 = radius_dbu as i128 * radius_dbu as i128;
    let rsq: i128 = if r2 > i64::MAX as i128 {
        i64::MAX as i128
    } else {
        r2
    };
    let mut best: Option<(i128, u8, SnapHint)> = None;
    let mut i: usize = 0;
    while i < resolved.len()
        invariant
            i <= resolved@.len(),
            rsq == radius_sq(radius_dbu as int),
            match best {
                Some(b) => nearest_hint(raw, rsq as int, resolved@.take(i as int)) == Some(
                    (b.0 as int, b.1, b.2),
                ),
                None => nearest_hint(raw, rsq as int, resolved@.take(i as int)) is None,
            },
        decreases resolved@.len() - i,
    {
        let h = resolved[i];
        proof {
            assert(resolved@.take(i + 1).drop_last() =~= resolved@.take(i as int));
            assert(resolved@.take(i + 1).last() == h);
        }
        let d = raw.distance_squared(h.point);
        if d <= rsq {
            let p = kind_priority(h.kind);
            let better = match best {
                None => true,
                Some(b) => d < b.0 || (d == b.0 && p < b.1),
            };
            if better {
                best = Some((d, p, h));
            }
        }
        i = i + 1;
    }
    proof {
        assert(resolved@.take(resolved@.len() as int) =~= resolved@);
    }
    match best {
        Some(b) => Some(b.2),
        None => None,
    }
}

/// A geometry snap and a guide snap combined: the one nearer `raw`, geometry
/// on a tie.
pub open spec fn combined_snap(raw: Point, geom: Option<SnapHint>, guide: Option<SnapHint>) -> Option<
    SnapHint,
> {
    match (geom, guide) {
        (Some(g), Some(gu)) => if dist_sq(raw, gu.point) < dist_sq(raw, g.point) {
            Some(gu)
        } else {
            Some(g)
        },
        (Some(g), None) => Some(g),
        (None, Some(gu)) => Some(gu),
        (None, None) => None,
    }
}

/// Combines a geometry snap (when geometry snapping is on) and a guide snap,
/// preferring whichever lands nearer `raw`; geometry wins ties so a snap lands
/// on real geometry rather than on a guide passing through it.
pub fn best_snap(state: &SnapState, raw: Point, radius_dbu: i64, resolved: &[SnapHint]) -> (r:
    Option<SnapHint>)
    ensures
        r == combined_snap(
            raw,
            if state.geometry_enabled {
                geometry_snap(raw, radius_dbu as int, resolved@)
            } else {
                None
            },
            guide_snap(state.guides@, state.guide_enabled, raw, radius_dbu as int),
        ),
{
    let geom = if state.geometry_enabled {
        nearest_geometry(raw, radius_dbu, resolved)
    } else {
        None
    };
    let guide = state.snap_to_guides(raw, radius_dbu);
    match (geom, guide) {
        (Some(g), Some(gu)) => {
            if raw.distance_squared(gu.point) < raw.distance_squared(g.point) {
                Some(gu)
            } else {
                Some(g)
            }
        },
        (Some(g), None) => Some(g),
        (None, Some(gu)) => Some(gu),
        (None, None) => None,
    }
}

/// The integer midpoint of `a` and `b`, rounded toward zero on a half.
pub open spec fn midpoint_scalar(a: int, b: int) -> int {
    let s = a + b;
    if s >= 0 {
        s / 2
    } else {
        -((-s) / 2)
    }
}

/// The midpoint of two points, each coordinate rounded toward zero on a half.
pub open spec fn mid_point(a: Point, b: Point) -> Point {
    Point {
        x: midpoint_scalar(a.x as int, b.x as int) as i32,
        y: midpoint_scalar(a.y as int, b.y as int) as i32,
    }
}

fn midpoint_of(a: i32, b: i32) -> (r: i32)
    ensures
        r == midpoint_scalar(a as int, b as int),
{
    let s = a as i64 + b as i64;
    if s >= 0 {
        ((s as u64) / 2) as i32
    } else {
        let m = ((-s) as u64) / 2;
        -(m as i64) as i32
    }
}

fn midpoint(a: Point, b: Point) -> (r: Point)
    ensures
        r == mid_point(a, b),
{
    Point::new(midpoint_of(a.x, b.x), midpoint_of(a.y, b.y))
}

/// The smallest value of a non-empty sequence.
pub open spec fn seq_min(s: Seq<int>) -> int
    decreases s.len(),
{
    if s.len() <= 1 {
        s[0]
    } else {
        let m = seq_min(s.drop_last());
        if s.last() < m {
            s.last()
        } else {
            m
        }
    }
}

/// The largest value of a non-empty sequence.
pub open spec fn seq_max(s: Seq<int>) -> int
    decreases s.len(),
{
    if s.len() <= 1 {
        s[0]
    } else {
        let m = seq_max(s.drop_last());
        if s.last() > m {
            s.last()
        } else {
            m
        }
    }
}

/// The x coordinates of `verts`.
pub open spec fn xs_of(verts: Seq<Point>) -> Seq<int> {
    verts.map_values(|p: Point| p.x as int)
}

/// The y coordinates of `verts`.
pub open spec fn ys_of(verts: Seq<Point>) -> Seq<int> {
    verts.map_values(|p: Point| p.y as int)
}

/// The center of the bounding box of a non-empty set of vertices.
pub open spec fn bbox_center(verts: Seq<Point>) -> Point {
    Point {
        x: midpoint_scalar(seq_min(xs_of(verts)), seq_max(xs_of(verts))) as i32,
        y: midpoint_scalar(seq_min(ys_of(verts)), seq_max(ys_of(verts))) as i32,
    }
}

/// The bounding-box center of a set of vertices, or `None` if there are none.
fn ring_center(verts: &[Point]) -> (r: Option<Point>)
    ensures
        verts@.len() == 0 ==> r is None,
        verts@.len() > 0 ==> r == Some(bbox_center(verts@)),
{
    if verts.len() == 0 {
        return None;
    }
    let first = verts[0];
    let mut min_x = first.x;
    let mut min_y = first.y;
    let mut max_x = first.x;
    let mut max_y = first.y;
    let ghost xs = xs_of(verts@);
    let ghost ys = ys_of(verts@);
    assert(xs.take(1) =~= seq![first.x as int]);
    assert(ys.take(1) =~= seq![first.y as int]);
    let mut i: usize = 1;
    while i < verts.len()
        invariant
            1 <= i <= verts@.len(),
            xs == xs_of(verts@),
            ys == ys_of(verts@),
            min_x == seq_min(xs.take(i as int)),
            max_x == seq_max(xs.take(i as int)),
            min_y == seq_min(ys.take(i as int)),
            max_y == seq_max(ys.take(i as int)),
        decreases verts@.len() - i,
    {
        let p = verts[i];
        assert(xs.take(i + 1).drop_last() =~= xs.take(i as int));
        assert(ys.take(i + 1).drop_last() =~= ys.take(i as int));
        if p.x < min_x {
            min_x = p.x;
        }
        if p.x > max_x {
            max_x = p.x;
        }
        if p.y < min_y {
            min_y = p.y;
        }
        if p.y > max_y {
            max_y = p.y;
        }
        i = i + 1;
    }
    assert(xs.take(verts@.len() as int) =~= xs);
    assert(ys.take(verts@.len() as int) =~= ys);
    Some(Point::new(midpoint_of(min_x, max_x), midpoint_of(min_y, max_y)))
}

/// The number of edges of a ring of `n` vertices: `n` when closed, one fewer
/// when open.
pub open spec fn edge_count(n: nat, closed: bool) -> nat {
    if closed {
        n
    } else if n > 0 {
        (n - 1) as nat
    } else {
        0
    }
}

/// The `j`-th edge entry of a ring: edge `j / 2` itself for even `j`, its
/// midpoint for odd `j`.
pub open spec fn edge_entry(verts: Seq<Point>, j: int) -> SnapCandidate {
    let i = j / 2;
    let a = verts[i];
    let b = verts[(i + 1) % (verts.len() as int)];
    if j % 2 == 0 {
        SnapCandidate::Segment { a, b }
    } else {
        SnapCandidate::Point { at: mid_point(a, b), kind: SnapKind::Midpoint }
    }
}

/// The snap candidates of a ring or open chain of vertices: each vertex, then
/// each edge followed by its midpoint (closing edge included when `closed`),
/// then the bounding-box center; nothing for no vertices.
pub open spec fn ring_candidates(verts: Seq<Point>, closed: bool) -> Seq<SnapCandidate> {
    if verts.len() == 0 {
        Seq::empty()
    } else {
        Seq::new(verts.len(), |i: int| SnapCandidate::Point { at: verts[i], kind: SnapKind::Vertex })
            + Seq::new(2 * edge_count(verts.len(), closed), |j: int| edge_entry(verts, j)) + seq![
            SnapCandidate::Point { at: bbox_center(verts), kind: SnapKind::Center },
        ]
    }
}

fn candidates_from_ring(verts: &[Point], closed: bool) -> (r: Vec<SnapCandidate>)
    ensures
        r@ == ring_candidates(verts@, closed),
{
    let mut out: Vec<SnapCandidate> = Vec::new();
    let n = verts.len();
    if n == 0 {
        return out;
    }
    let ghost vs = Seq::new(
        verts@.len(),
        |i: int| SnapCandidate::Point { at: verts@[i], kind: SnapKind::Vertex },
    );
    let mut i: usize = 0;
    while i < n
        invariant
            n == verts@.len(),
            i <= n,
            out@ == vs.take(i as int),
            vs == Seq::new(
                verts@.len(),
                |i: int| SnapCandidate::Point { at: verts@[i], kind: SnapKind::Vertex },
            ),
        decreases n - i,
    {
        out.push(SnapCandidate::Point { at: verts[i], kind: SnapKind::Vertex });
        assert(out@ =~= vs.take(i + 1));
        i = i + 1;
    }
    assert(vs.take(n as int) =~= vs);
    let m = if closed {
        n
    } else {
        n - 1
    };
    assert(m == edge_count(n as nat, closed));
    let ghost es = Seq::new(2 * edge_count(verts@.len(), closed), |j: int| edge_entry(verts@, j));
    let mut k: usize = 0;
    while k < m
        invariant
            n == verts@.len(),
            n > 0,
            m == edge_count(n as nat, closed),
            m <= n,
            k <= m,
            es == Seq::new(2 * edge_count(verts@.len(), closed), |j: int| edge_entry(verts@, j)),
            out@ == vs + es.take(2 * k),
        decreases m - k,
    {
        let a = verts[k];
        let b = verts[(k + 1) % n];
        out.push(SnapCandidate::Segment { a, b });
        out.push(SnapCandidate::Point { at: midpoint(a, b), kind: SnapKind::Midpoint });
        proof {
            assert((2 * k) / 2 == k && (2 * k) % 2 == 0);
            assert((2 * k + 1) / 2 == k && (2 * k + 1) % 2 == 1);
            assert(es[2 * k] == edge_entry(verts@, 2 * k));
            assert(es[2 * k + 1] == edge_entry(verts@, 2 * k + 1));
            assert(es.take(2 * k + 2) =~= es.take(2 * k).push(es[2 * k]).push(es[2 * k + 1]));
        }
        assert(out@ =~= vs + es.take(2 * (k + 1)));
        k = k + 1;
    }
    assert(es.take(2 * m) =~= es);
    let c = ring_center(verts);
    match c {
        Some(p) => {
            out.push(SnapCandidate::Point { at: p, kind: SnapKind::Center });
        },
        None => {},
    }
    assert(out@ =~= ring_candidates(verts@, closed));
    out
}

/// The snap candidates a shape offers, as plain values: a rectangle's four
/// corners (counter-clockwise from `min`) as a closed ring, a polygon's
/// vertices as a closed ring, a path's points as an open chain.
pub open spec fn shape_snap_candidates(shape: DrawShape) -> Seq<SnapCandidate> {
    match shape.kind {
        ShapeKind::Rect(r) => ring_candidates(
            seq![
                Point { x: r.min.x, y: r.min.y },
                Point { x: r.max.x, y: r.min.y },
                Point { x: r.max.x, y: r.max.y },
                Point { x: r.min.x, y: r.max.y },
            ],
            true,
        ),
        ShapeKind::Polygon(p) => ring_candidates(p@, true),
        ShapeKind::Path(p) => ring_candidates(p@.points, false),
    }
}

/// Every snap candidate a single shape offers: its vertices, edge segments,
/// edge midpoints and bounding-box center. Rectangles and polygons are closed
/// rings, so their closing edge snaps like any other; a path is an open
/// chain.
pub fn shape_candidates(shape: &DrawShape) -> (r: Vec<SnapCandidate>)
    ensures
        r@ == shape_snap_candidates(*shape),
{
    match &shape.kind {
        ShapeKind::Rect(r) => {
            let corners = vec![
                Point::new(r.min.x, r.min.y),
                Point::new(r.max.x, r.min.y),
                Point::new(r.max.x, r.max.y),
                Point::new(r.min.x, r.max.y),
            ];
            assert(corners@ =~= seq![
                Point { x: r.min.x, y: r.min.y },
                Point { x: r.max.x, y: r.min.y },
                Point { x: r.max.x, y: r.max.y },
                Point { x: r.min.x, y: r.max.y },
            ]);
            candidates_from_ring(corners.as_slice(), true)
        },
        ShapeKind::Polygon(p) => candidates_from_ring(p.vertices(), true),
        ShapeKind::Path(p) => candidates_from_ring(p.points(), false),
    }
}

/// Whether hint `h` lies within squared radius `rsq` of `raw`.
pub open spec fn in_reach(raw: Point, rsq: int, h: SnapHint) -> bool {
    dist_sq(raw, h.point) <= rsq
}

/// Whether `a` is at least as good a snap as `b` for `raw`: nearer, or as
/// near and of no lower priority.
pub open spec fn at_least_as_good(raw: Point, a: SnapHint, b: SnapHint) -> bool {
    dist_sq(raw, a.point) < dist_sq(raw, b.point) || (dist_sq(raw, a.point) == dist_sq(raw, b.point)
        && priority_of(a.kind) <= priority_of(b.kind))
}

/// Whether `a` is a strictly better snap than `b` for `raw`.
pub open spec fn strictly_better(raw: Point, a: SnapHint, b: SnapHint) -> bool {
    dist_sq(raw, a.point) < dist_sq(raw, b.point) || (dist_sq(raw, a.point) == dist_sq(raw, b.point)
        && priority_of(a.kind) < priority_of(b.kind))
}

/// Whether entry `k` of `hints` is the snap winner: in reach, at least as good
/// as every hint in reach, and strictly better than every earlier one.
pub open spec fn first_best(raw: Point, rsq: int, hints: Seq<SnapHint>, k: int) -> bool {
    &&& 0 <= k < hints.len()
    &&& in_reach(raw, rsq, hints[k])
    &&& forall|j: int|
        0 <= j < hints.len() && in_reach(raw, rsq, #[trigger] hints[j]) ==> at_least_as_good(
            raw,
            hints[k],
            hints[j],
        )
    &&& forall|j: int|
        0 <= j < k && in_reach(raw, rsq, #[trigger] hints[j]) ==> strictly_better(
            raw,
            hints[k],
            hints[j],
        )
}

proof fn lemma_nearest_hint(raw: Point, rsq: int, hints: Seq<SnapHint>)
    ensures
        match nearest_hint(raw, rsq, hints) {
            None => forall|j: int| 0 <= j < hints.len() ==> !in_reach(raw, rsq, #[trigger] hints[j]),
            Some(b) => b.0 == dist_sq(raw, b.2.point) && b.1 == priority_of(b.2.kind) && exists|k: int|
                first_best(raw, rsq, hints, k) && hints[k] == b.2,
        },
    decreases hints.len(),
{
    if hints.len() > 0 {
        let rest = hints.drop_last();
        lemma_nearest_hint(raw, rsq, rest);
        let n = hints.len() - 1;
        let h = hints.last();
        assert forall|j: int| 0 <= j < n implies #[trigger] hints[j] == rest[j] by {}
        match nearest_hint(raw, rsq, rest) {
            None => {
                if in_reach(raw, rsq, h) {
                    assert(first_best(raw, rsq, hints, n));
                }
            },
            Some(b) => {
                let k = choose|k: int| first_best(raw, rsq, rest, k) && rest[k] == b.2;
                if in_reach(raw, rsq, h) && strictly_better(raw, h, b.2) {
                    assert(first_best(raw, rsq, hints, n));
                } else {
                    assert(first_best(raw, rsq, hints, k));
                }
            },
        }
    }
}

/// Geometry snapping picks the best hint in reach: `None` exactly when the
/// radius is not positive or no hint lies within it; otherwise the winner is
/// in reach, at least as good as every hint in reach (nearer, or as near and
/// of no lower priority) and strictly better than every earlier one, so ties
/// go to the higher-priority kind and then to the earlier candidate.
pub proof fn lemma_geometry_snap_is_best(raw: Point, radius: int, hints: Seq<SnapHint>)
    ensures
        geometry_snap(raw, radius, hints) is None <==> (radius <= 0 || forall|j: int|
            0 <= j < hints.len() ==> !in_reach(raw, radius_sq(radius), #[trigger] hints[j])),
        geometry_snap(raw, radius, hints) matches Some(h) ==> exists|k: int|
            first_best(raw, radius_sq(radius), hints, k) && hints[k] == h,
{
    lemma_nearest_hint(raw, radius_sq(radius), hints);
    if radius > 0 {
        match nearest_hint(raw, radius_sq(radius), hints) {
            Some(b) => {
                let k = choose|k: int| first_best(raw, radius_sq(radius), hints, k) && hints[k] == b.2;
                assert(in_reach(raw, radius_sq(radius), hints[k]));
            },
            None => {},
        }
    }
}

/// Whether guide `g` runs along `axis` within `radius` of `target`.
pub open spec fn guide_in_reach(g: Guide, axis: Axis, target: int, radius: int) -> bool {
    g.axis == axis && abs_diff(g.coord as int, target) <= radius
}

/// The guide a snap uses on an axis is a guide on that axis in reach, and no
/// guide on that axis in reach is nearer; with none in reach the axis is left
/// free.
pub proof fn lemma_nearest_guide_is_nearest(guides: Seq<Guide>, axis: Axis, target: int, radius: int)
    ensures
        match nearest_guide(guides, axis, target, radius) {
            None => forall|j: int|
                0 <= j < guides.len() ==> !guide_in_reach(#[trigger] guides[j], axis, target, radius),
            Some(b) => (exists|k: int|
                0 <= k < guides.len() && guide_in_reach(guides[k], axis, target, radius)
                    && #[trigger] guides[k].coord == b.1 && b.0 == abs_diff(b.1 as int, target))
                && forall|j: int|
                0 <= j < guides.len() && guide_in_reach(#[trigger] guides[j], axis, target, radius)
                    ==> b.0 <= abs_diff(guides[j].coord as int, target),
        },
    decreases guides.len(),
{
    if guides.len() > 0 {
        let rest = guides.drop_last();
        lemma_nearest_guide_is_nearest(rest, axis, target, radius);
        let n = guides.len() - 1;
        assert forall|j: int| 0 <= j < n implies #[trigger] guides[j] == rest[j] by {}
        match nearest_guide(rest, axis, target, radius) {
            None => {},
            Some(b) => {
                let k = choose|k: int|
                    0 <= k < rest.len() && guide_in_reach(rest[k], axis, target, radius)
                        && #[trigger] rest[k].coord == b.1 && b.0 == abs_diff(b.1 as int, target);
                assert(guides[k] == rest[k]);
            },
        }
    }
}

} // verus!
