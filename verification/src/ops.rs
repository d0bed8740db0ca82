//! Boolean and transform operations on the current selection: the choices the
//! operations panel offers, which selected shapes an operation may rewrite,
//! the order their removals apply in, and the per-shape translations that
//! align a selection.
//!
//! A selection indexes the flattened scene; only scene indices below the
//! count of the top cell's own shapes are editable (they map one-to-one to
//! those shapes), higher ones are placed-instance geometry and are skipped.
use vstd::prelude::*;
use crate::edit::{Edit, EditModel};
use crate::geom::{clamp_i32, DrawShape, KindModel, Path, PathModel, Point, Polygon, Rect, ShapeKind, ShapeModel};
use crate::productivity::{moved_points, translate_points};
use crate::text::{chars_of, string_of};

verus! {

broadcast use vstd::seq_lib::group_to_multiset_ensures;

/// Which planar boolean to run on the selection.
#[derive(Clone, Copy, PartialEq, Eq, Debug, Structural)]
pub enum BoolKind {
    /// Merge the selected shapes into their union.
    Union,
    /// Keep only the region common to all selected shapes.
    Intersection,
    /// Subtract the later shapes from the first.
    Difference,
    /// Keep the region covered by an odd number of shapes.
    Xor,
}

/// The panel label of a boolean.
pub open spec fn bool_label(kind: BoolKind) -> Seq<char> {
    match kind {
        BoolKind::Union => "Union"@,
        BoolKind::Intersection => "Intersection"@,
        BoolKind::Difference => "Difference"@,
        BoolKind::Xor => "XOR"@,
    }
}

impl BoolKind {
    /// A short human label for the panel and status line.
    pub fn label(self) -> (r: &'static str)
        ensures
            r@ == bool_label(self),
    {
        match self {
            BoolKind::Union => "Union",
            BoolKind::Intersection => "Intersection",
            BoolKind::Difference => "Difference",
            BoolKind::Xor => "XOR",
        }
    }
}

/// Which way to align a selection.
#[derive(Clone, Copy, PartialEq, Eq, Debug, Structural)]
pub enum AlignKind {
    /// Line up the shapes' left edges to the leftmost edge.
    Left,
    /// Line up the shapes' right edges to the rightmost edge.
    Right,
    /// Center the shapes horizontally on the selection's center.
    CenterX,
    /// Line up the shapes' top edges to the topmost edge.
    Top,
    /// Line up the shapes' bottom edges to the bottommost edge.
    Bottom,
    /// Center the shapes vertically on the selection's center.
    CenterY,
}

/// The axis a mirror reflects across.
#[derive(Clone, Copy, PartialEq, Eq, Debug, Structural)]
pub enum MirrorAxis {
    /// Reflect left-to-right about the selection's vertical center line.
    Vertical,
    /// Reflect top-to-bottom about the selection's horizontal center line.
    Horizontal,
}

// ---------------------------------------------------------------------------
// Mirroring
// ---------------------------------------------------------------------------

/// The coordinates of `p` reflected across the line through `center` that
/// `axis` names: a vertical mirror sends `x` to `2 * center.x - x`, a
/// horizontal one sends `y` to `2 * center.y - y`; the other coordinate stays.
pub open spec fn reflected(p: Point, center: Point, axis: MirrorAxis) -> (int, int) {
    match axis {
        MirrorAxis::Vertical => (2 * center.x - p.x, p.y as int),
        MirrorAxis::Horizontal => (p.x as int, 2 * center.y - p.y),
    }
}

/// Whether reflecting `p` about `center` stays in the DBU range, the doubled
/// center coordinate included.
pub open spec fn reflect_in_range(p: Point, center: Point, axis: MirrorAxis) -> bool {
    match axis {
        MirrorAxis::Vertical => i32::MIN <= 2 * center.x <= i32::MAX && i32::MIN <= 2 * center.x
            - p.x <= i32::MAX,
        MirrorAxis::Horizontal => i32::MIN <= 2 * center.y <= i32::MAX && i32::MIN <= 2 * center.y
            - p.y <= i32::MAX,
    }
}

/// Reflects `p` across the line through `center` that `axis` names. Exact on
/// the integer grid.
pub fn reflect_point(p: Point, center: Point, axis: MirrorAxis) -> (r: Point)
    requires
        reflect_in_range(p, center, axis),
    ensures
        (r.x as int, r.y as int) == reflected(p, center, axis),
{
    match axis {
        MirrorAxis::Vertical => Point::new(2 * center.x - p.x, p.y),
        MirrorAxis::Horizontal => Point::new(p.x, 2 * center.y - p.y),
    }
}

/// Mirroring is its own inverse: reflecting a point twice across the same
/// axis through the same center gives the point back.
pub proof fn lemma_reflect_twice(p: Point, center: Point, axis: MirrorAxis)
    requires
        reflect_in_range(p, center, axis),
    ensures
        ({
            let once = Point {
                x: reflected(p, center, axis).0 as i32,
                y: reflected(p, center, axis).1 as i32,
            };
            &&& reflect_in_range(once, center, axis)
            &&& reflected(once, center, axis) == (p.x as int, p.y as int)
        }),
{
}

// ---------------------------------------------------------------------------
// Which shapes an operation rewrites
// ---------------------------------------------------------------------------

/// Whether scene index `i` names a directly editable shape.
pub open spec fn is_editable(i: usize, scene_len: nat, editable_count: nat) -> bool {
    i < editable_count && i < scene_len
}

/// The selected indices that name directly editable shapes, in selection order.
pub open spec fn editable_indices(selection: Seq<usize>, scene_len: nat, editable_count: nat) -> Seq<
    usize,
>
    decreases selection.len(),
{
    if selection.len() == 0 {
        Seq::empty()
    } else {
        let rest = editable_indices(selection.drop_last(), scene_len, editable_count);
        if is_editable(selection.last(), scene_len, editable_count) {
            rest.push(selection.last())
        } else {
            rest
        }
    }
}

/// Whether `s` is in ascending order (repeats allowed).
pub open spec fn ascending(s: Seq<usize>) -> bool {
    forall|i: int, j: int| 0 <= i < j < s.len() ==> s[i] <= s[j]
}

/// Resolves the selected scene indices to the editable top-cell shapes: the
/// indices below both the editable count and the scene length, sorted
/// ascending (a repeated index stays repeated).
pub fn editable_selection(selection: &[usize], scene_len: usize, editable_count: usize) -> (r: Vec<
    usize,
>)
    ensures
        ascending(r@),
        r@.to_multiset() == editable_indices(selection@, scene_len as nat, editable_count as nat).to_multiset(),
{
    let ghost want = editable_indices(selection@, scene_len as nat, editable_count as nat);
    let mut out: Vec<usize> = Vec::new();
    let mut i: usize = 0;
    while i < selection.len()
        invariant
            i <= selection@.len(),
            ascending(out@),
            out@.to_multiset() == editable_indices(
                selection@.take(i as int),
                scene_len as nat,
                editable_count as nat,
            ).to_multiset(),
        decreases selection@.len() - i,
    {
        let x = selection[i];
        proof {
            assert(selection@.take(i + 1).drop_last() =~= selection@.take(i as int));
            assert(selection@.take(i + 1).last() == x);
        }
        if x < editable_count && x < scene_len {
            let mut pos: usize = 0;
            while pos < out.len() && out[pos] <= x
                invariant
                    pos <= out@.len(),
                    forall|k: int| 0 <= k < pos ==> out@[k] <= x,
                decreases out@.len() - pos,
            {
                pos = pos + 1;
            }
            let ghost before = out@;
            out.insert(pos, x);
            proof {
                assert(out@ == before.insert(pos as int, x));
                assert forall|a: int, b: int| 0 <= a < b < out@.len() implies out@[a] <= out@[b] by {
                    if b < pos {
                        assert(out@[a] == before[a] && out@[b] == before[b]);
                    } else if b == pos {
                        assert(out@[a] == before[a]);
                    } else if a == pos {
                        assert(out@[b] == before[b - 1]);
                        if pos < before.len() {
                            assert(before[pos as int] > x);
                            if b - 1 > pos {
                                assert(before[pos as int] <= before[b - 1]);
                            }
                        }
                    } else if a < pos {
                        assert(out@[a] == before[a] && out@[b] == before[b - 1]);
                    } else {
                        assert(out@[a] == before[a - 1] && out@[b] == before[b - 1]);
                    }
                }
            }
        }
        i = i + 1;
    }
    proof {
        assert(selection@.take(selection@.len() as int) =~= selection@);
    }
    out
}

/// Whether `s` is in strictly descending order.
pub open spec fn strictly_descending(s: Seq<usize>) -> bool {
    forall|i: int, j: int| 0 <= i < j < s.len() ==> s[i] > s[j]
}

/// The removals of the shapes at `indices` from `cell`: each distinct index
/// once, highest first, so no removal shifts the index of a later one.
pub open spec fn removal_edits(cell: Seq<char>, order: Seq<usize>) -> Seq<EditModel> {
    order.map_values(|i: usize| EditModel::RemoveShape(cell, i))
}

/// The edits removing the shapes at `cell_indices` from `cell`, ordered so
/// that earlier removals do not shift the indices of later ones: every
/// distinct index once, highest first.
pub fn removals(cell: &str, cell_indices: &[usize]) -> (r: Vec<Edit>)
    ensures
        exists|order: Seq<usize>|
            #![trigger removal_edits(cell@, order)]
            strictly_descending(order) && order.to_set() == cell_indices@.to_set()
                && r@.map_values(|e: Edit| e@) == removal_edits(cell@, order),
{
    let mut order: Vec<usize> = Vec::new();
    let mut i: usize = 0;
    while i < cell_indices.len()
        invariant
            i <= cell_indices@.len(),
            strictly_descending(order@),
            order@.to_set() == cell_indices@.take(i as int).to_set(),
        decreases cell_indices@.len() - i,
    {
        let x = cell_indices[i];
        proof {
            assert(cell_indices@.take(i + 1) =~= cell_indices@.take(i as int).push(x));
            cell_indices@.take(i as int).lemma_push_to_set_commute(x);
        }
        let mut pos: usize = 0;
        while pos < order.len() && order[pos] > x
            invariant
                pos <= order@.len(),
                forall|k: int| 0 <= k < pos ==> order@[k] > x,
            decreases order@.len() - pos,
        {
            pos = pos + 1;
        }
        if pos < order.len() && order[pos] == x {
            assert(order@.to_set().insert(x) =~= order@.to_set()) by {
                assert(order@.contains(x));
            }
        } else {
            let ghost before = order@;
            order.insert(pos, x);
            proof {
                assert(order@ == before.insert(pos as int, x));
                assert forall|a: int, b: int| 0 <= a < b < order@.len() implies order@[a] > order@[b] by {
                    if b < pos {
                        assert(order@[a] == before[a] && order@[b] == before[b]);
                    } else if b == pos {
                        assert(order@[a] == before[a]);
                    } else if a == pos {
                        assert(order@[b] == before[b - 1]);
                        assert(before[pos as int] < x);
                        if b - 1 > pos {
                            assert(before[pos as int] > before[b - 1]);
                        }
                    } else if a < pos {
                        assert(order@[a] == before[a] && order@[b] == before[b - 1]);
                    } else {
                        assert(order@[a] == before[a - 1] && order@[b] == before[b - 1]);
                    }
                }
                assert(order@.to_set() =~= before.to_set().insert(x)) by {
                    assert forall|y: usize| order@.to_set().contains(y) <==> before.to_set().insert(x).contains(y) by {
                        if order@.contains(y) {
                            let k = choose|k: int| 0 <= k < order@.len() && order@[k] == y;
                            if k < pos {
                                assert(before[k] == y);
                            } else if k > pos {
                                assert(before[k - 1] == y);
                            }
                        }
                        if before.contains(y) {
                            let k = choose|k: int| 0 <= k < before.len() && before[k] == y;
                            if k < pos {
                                assert(order@[k] == y);
                            } else {
                                assert(order@[k + 1] == y);
                            }
                        }
                        if y == x {
                            assert(order@[pos as int] == x);
                        }
                    }
                }
            }
        }
        i = i + 1;
    }
    proof {
        assert(cell_indices@.take(cell_indices@.len() as int) =~= cell_indices@);
    }
    let mut edits: Vec<Edit> = Vec::new();
    let mut k: usize = 0;
    while k < order.len()
        invariant
            k <= order@.len(),
            edits@.map_values(|e: Edit| e@) == removal_edits(cell@, order@.take(k as int)),
        decreases order@.len() - k,
    {
        let name = chars_of(cell);
        let owned = string_of(&name);
        let idx = order[k];
        let ghost before = edits@;
        edits.push(Edit::RemoveShape { cell: owned, index: idx });
        proof {
            assert(order@.take(k + 1) =~= order@.take(k as int).push(idx));
            assert(edits@ =~= before.push(Edit::RemoveShape { cell: owned, index: idx }));
            assert(edits@.map_values(|e: Edit| e@) =~= before.map_values(|e: Edit| e@).push(
                EditModel::RemoveShape(cell@, idx),
            ));
            assert(edits@.map_values(|e: Edit| e@) =~= removal_edits(cell@, order@.take(k + 1)));
        }
        k = k + 1;
    }
    assert(order@.take(order@.len() as int) =~= order@);
    edits
}

// ---------------------------------------------------------------------------
// Alignment
// ---------------------------------------------------------------------------

/// The bounding box of two boxes.
pub open spec fn box_union(a: Rect, b: Rect) -> Rect {
    Rect {
        min: Point {
            x: if a.min.x <= b.min.x { a.min.x } else { b.min.x },
            y: if a.min.y <= b.min.y { a.min.y } else { b.min.y },
        },
        max: Point {
            x: if a.max.x >= b.max.x { a.max.x } else { b.max.x },
            y: if a.max.y >= b.max.y { a.max.y } else { b.max.y },
        },
    }
}

/// The bounding box of a non-empty list of boxes.
pub open spec fn boxes_union(boxes: Seq<Rect>) -> Rect
    decreases boxes.len(),
{
    if boxes.len() <= 1 {
        boxes[0]
    } else {
        box_union(boxes_union(boxes.drop_last()), boxes.last())
    }
}

/// The midpoint of `a` and `b`, rounded half away from zero.
pub open spec fn mid_rounded(a: int, b: int) -> int {
    let s = a + b;
    if s >= 0 {
        (s + 1) / 2
    } else {
        -((-s + 1) / 2)
    }
}

/// The translation that aligns a shape with bounding box `b` inside a
/// selection with bounding box `bounds`, each component saturating to the DBU
/// range.
pub open spec fn align_offset(bounds: Rect, b: Rect, kind: AlignKind) -> (i32, i32) {
    match kind {
        AlignKind::Left => (clamp_i32(bounds.min.x - b.min.x), 0),
        AlignKind::Right => (clamp_i32(bounds.max.x - b.max.x), 0),
        AlignKind::Top => (0, clamp_i32(bounds.max.y - b.max.y)),
        AlignKind::Bottom => (0, clamp_i32(bounds.min.y - b.min.y)),
        AlignKind::CenterX => (
            clamp_i32(
                mid_rounded(bounds.min.x as int, bounds.max.x as int) - mid_rounded(
                    b.min.x as int,
                    b.max.x as int,
                ),
            ),
            0,
        ),
        AlignKind::CenterY => (
            0,
            clamp_i32(
                mid_rounded(bounds.min.y as int, bounds.max.y as int) - mid_rounded(
                    b.min.y as int,
                    b.max.y as int,
                ),
            ),
        ),
    }
}

fn mid_of(a: i32, b: i32) -> (r: i32)
    ensures
        r == mid_rounded(a as int, b as int),
{
    let s = a as i64 + b as i64;
    if s >= 0 {
        (((s + 1) as u64) / 2) as i32
    } else {
        let m = (((-s) + 1) as u64) / 2;
        (-(m as i64)) as i32
    }
}

fn sat_i32(v: i64) -> (r: i32)
    ensures
        r == clamp_i32(v as int),
{
    crate::geom::clamp_to_i32(v)
}

/// The bounding box of a non-empty list of boxes.
pub fn union_of(boxes: &[Rect]) -> (r: Rect)
    requires
        boxes@.len() > 0,
    ensures
        r == boxes_union(boxes@),
{
    let mut acc = boxes[0];
    let mut i: usize = 1;
    assert(boxes@.take(1) =~= seq![boxes@[0]]);
    while i < boxes.len()
        invariant
            1 <= i <= boxes@.len(),
            acc == boxes_union(boxes@.take(i as int)),
        decreases boxes@.len() - i,
    {
        let b = boxes[i];
        assert(boxes@.take(i + 1).drop_last() =~= boxes@.take(i as int));
        acc = Rect {
            min: Point {
                x: if acc.min.x <= b.min.x {
                    acc.min.x
                } else {
                    b.min.x
                },
                y: if acc.min.y <= b.min.y {
                    acc.min.y
                } else {
                    b.min.y
                },
            },
            max: Point {
                x: if acc.max.x >= b.max.x {
                    acc.max.x
                } else {
                    b.max.x
                },
                y: if acc.max.y >= b.max.y {
                    acc.max.y
                } else {
                    b.max.y
                },
            },
        };
        i = i + 1;
    }
    assert(boxes@.take(boxes@.len() as int) =~= boxes@);
    acc
}

/// The center of the bounding box enclosing `boxes`, each coordinate the
/// midpoint rounded half away from zero; `None` for no boxes.
pub fn selection_center(boxes: &[Rect]) -> (r: Option<Point>)
    ensures
        boxes@.len() == 0 ==> r is None,
        boxes@.len() > 0 ==> r == Some(
            Point {
                x: mid_rounded(
                    boxes_union(boxes@).min.x as int,
                    boxes_union(boxes@).max.x as int,
                ) as i32,
                y: mid_rounded(
                    boxes_union(boxes@).min.y as int,
                    boxes_union(boxes@).max.y as int,
                ) as i32,
            },
        ),
{
    if boxes.len() == 0 {
        return None;
    }
    let u = union_of(boxes);
    Some(Point::new(mid_of(u.min.x, u.max.x), mid_of(u.min.y, u.max.y)))
}

/// The per-shape translation that aligns each shape, given by its bounding
/// box, as `kind` asks, in the order given; a shape already in place gets
/// `(0, 0)`. No boxes, no translations.
pub fn align_offsets(boxes: &[Rect], kind: AlignKind) -> (r: Vec<(i32, i32)>)
    ensures
        r@.len() == boxes@.len(),
        forall|i: int|
            0 <= i < r@.len() ==> #[trigger] r@[i] == align_offset(boxes_union(boxes@), boxes@[i], kind),
{
    let mut out: Vec<(i32, i32)> = Vec::new();
    if boxes.len() == 0 {
        return out;
    }
    let bounds = union_of(boxes);
    let mut i: usize = 0;
    while i < boxes.len()
        invariant
            i <= boxes@.len(),
            bounds == boxes_union(boxes@),
            out@.len() == i,
            forall|k: int| 0 <= k < i ==> #[trigger] out@[k] == align_offset(bounds, boxes@[k], kind),
        decreases boxes@.len() - i,
    {
        let b = boxes[i];
        let off = match kind {
            AlignKind::Left => (sat_i32(bounds.min.x as i64 - b.min.x as i64), 0),
            AlignKind::Right => (sat_i32(bounds.max.x as i64 - b.max.x as i64), 0),
            AlignKind::Top => (0, sat_i32(bounds.max.y as i64 - b.max.y as i64)),
            AlignKind::Bottom => (0, sat_i32(bounds.min.y as i64 - b.min.y as i64)),
            AlignKind::CenterX => {
                let target = mid_of(bounds.min.x, bounds.max.x);
                let cur = mid_of(b.min.x, b.max.x);
                (sat_i32(target as i64 - cur as i64), 0)
            },
            AlignKind::CenterY => {
                let target = mid_of(bounds.min.y, bounds.max.y);
                let cur = mid_of(b.min.y, b.max.y);
                (0, sat_i32(target as i64 - cur as i64))
            },
        };
        out.push(off);
        i = i + 1;
    }
    out
}


// ---------------------------------------------------------------------------
// Edits that move or reflect the selected shapes
// ---------------------------------------------------------------------------

/// A rectangle's corners, counter-clockwise from its lower-left one: the
/// polygon a point map turns it into.
pub open spec fn corners(r: Rect) -> Seq<Point> {
    seq![r.min, Point { x: r.max.x, y: r.min.y }, r.max, Point { x: r.min.x, y: r.max.y }]
}

/// The points a point map moves: a rectangle's corners, a polygon's
/// vertices, a path's center line.
pub open spec fn shape_points(s: ShapeModel) -> Seq<Point> {
    match s.kind {
        KindModel::Rect(r) => corners(r),
        KindModel::Polygon(vs) => vs,
        KindModel::Path(p) => p.points,
    }
}

/// `s` with its points replaced by `pts`: a rectangle or polygon becomes the
/// polygon on `pts`, a path keeps its width and end style.
pub open spec fn with_points(s: ShapeModel, pts: Seq<Point>) -> ShapeModel {
    ShapeModel {
        layer: s.layer,
        kind: match s.kind {
            KindModel::Path(p) => KindModel::Path(PathModel { points: pts, width: p.width, endcap: p.endcap }),
            _ => KindModel::Polygon(pts),
        },
    }
}

/// `s` with every point moved by `(dx, dy)`, saturating.
pub open spec fn moved_shape(s: ShapeModel, dx: int, dy: int) -> ShapeModel {
    with_points(s, moved_points(shape_points(s), dx, dy))
}

/// The point `p` reflected across the line through `center` that `axis`
/// names.
pub open spec fn reflect_pt(p: Point, center: Point, axis: MirrorAxis) -> Point {
    Point { x: reflected(p, center, axis).0 as i32, y: reflected(p, center, axis).1 as i32 }
}

/// `points`, each reflected.
pub open spec fn reflected_points(points: Seq<Point>, center: Point, axis: MirrorAxis) -> Seq<Point> {
    points.map_values(|p: Point| reflect_pt(p, center, axis))
}

/// `s` with every point reflected.
pub open spec fn reflected_shape(s: ShapeModel, center: Point, axis: MirrorAxis) -> ShapeModel {
    with_points(s, reflected_points(shape_points(s), center, axis))
}

/// Whether every point of every selected shape reflects within the DBU range.
pub open spec fn reflects_in_range(selected: Seq<(usize, ShapeModel)>, center: Point, axis: MirrorAxis) -> bool {
    forall|k: int, j: int|
        0 <= k < selected.len() && 0 <= j < shape_points(selected[k].1).len() ==> reflect_in_range(
            #[trigger] shape_points(selected[k].1)[j],
            center,
            axis,
        )
}

/// The selected shapes as `(cell index, shape)` values.
pub open spec fn sel_model(selected: Seq<(usize, DrawShape)>) -> Seq<(usize, ShapeModel)> {
    selected.map_values(|e: (usize, DrawShape)| (e.0, e.1@))
}

/// The selected shapes whose offset is not `(0, 0)`, with their offsets, in
/// selection order.
pub open spec fn moving(selected: Seq<(usize, ShapeModel)>, offsets: Seq<(i32, i32)>) -> Seq<(usize, ShapeModel, (i32, i32))>
    decreases selected.len(),
{
    if selected.len() == 0 {
        Seq::empty()
    } else {
        let n = (selected.len() - 1) as int;
        let rest = moving(selected.drop_last(), offsets);
        if offsets[n] != (0i32, 0i32) {
            rest.push((selected[n].0, selected[n].1, offsets[n]))
        } else {
            rest
        }
    }
}

/// The additions that put each moving shape back translated by its offset.
pub open spec fn translation_adds(cell: Seq<char>, moved: Seq<(usize, ShapeModel, (i32, i32))>) -> Seq<EditModel> {
    moved.map_values(|m: (usize, ShapeModel, (i32, i32))| EditModel::AddShape(cell, moved_shape(m.1, m.2.0 as int, m.2.1 as int)))
}

/// The additions that put each selected shape back reflected.
pub open spec fn reflection_adds(cell: Seq<char>, selected: Seq<(usize, ShapeModel)>, center: Point, axis: MirrorAxis) -> Seq<EditModel> {
    selected.map_values(|m: (usize, ShapeModel)| EditModel::AddShape(cell, reflected_shape(m.1, center, axis)))
}

/// Whether `edits` remove the shapes at `indices` (each distinct index once,
/// highest first) and then apply `adds`.
pub open spec fn removes_then_adds(edits: Seq<EditModel>, cell: Seq<char>, indices: Seq<usize>, adds: Seq<EditModel>) -> bool {
    exists|order: Seq<usize>|
        #![trigger removal_edits(cell, order)]
        strictly_descending(order) && order.to_set() == indices.to_set() && edits == removal_edits(cell, order) + adds
}

fn shape_points_of(shape: &DrawShape) -> (r: Vec<Point>)
    ensures
        r@ == shape_points(shape@),
{
    match &shape.kind {
        ShapeKind::Rect(r) => {
            let v = vec![r.min, Point::new(r.max.x, r.min.y), r.max, Point::new(r.min.x, r.max.y)];
            assert(v@ =~= corners(*r));
            v
        },
        ShapeKind::Polygon(p) => crate::geom::copy_points(p.vertices()),
        ShapeKind::Path(p) => crate::geom::copy_points(p.points()),
    }
}

fn with_points_of(shape: &DrawShape, pts: Vec<Point>) -> (r: DrawShape)
    ensures
        r@ == with_points(shape@, pts@),
{
    let kind = match &shape.kind {
        ShapeKind::Path(p) => ShapeKind::Path(Path::new(pts, p.width(), p.endcap())),
        _ => ShapeKind::Polygon(Polygon::new(pts)),
    };
    DrawShape::new(shape.layer, kind)
}

fn reflect_points(points: &[Point], center: Point, axis: MirrorAxis) -> (r: Vec<Point>)
    requires
        forall|j: int| 0 <= j < points@.len() ==> reflect_in_range(#[trigger] points@[j], center, axis),
    ensures
        r@ == reflected_points(points@, center, axis),
{
    let mut out: Vec<Point> = Vec::new();
    let mut i: usize = 0;
    while i < points.len()
        invariant
            i <= points@.len(),
            forall|j: int| 0 <= j < points@.len() ==> reflect_in_range(#[trigger] points@[j], center, axis),
            out@ == reflected_points(points@.take(i as int), center, axis),
        decreases points@.len() - i,
    {
        let q = reflect_point(points[i], center, axis);
        out.push(q);
        assert(reflected_points(points@.take(i + 1), center, axis) =~= reflected_points(
            points@.take(i as int),
            center,
            axis,
        ).push(reflect_pt(points@[i as int], center, axis)));
        i = i + 1;
    }
    assert(points@.take(points@.len() as int) =~= points@);
    out
}

/// Appends `adds` to `edits`.
fn append_edits(edits: &mut Vec<Edit>, adds: Vec<Edit>)
    ensures
        final(edits)@.map_values(|e: Edit| e@) == old(edits)@.map_values(|e: Edit| e@) + adds@.map_values(
            |e: Edit| e@,
        ),
{
    let ghost start = edits@.map_values(|e: Edit| e@);
    let ghost am = adds@.map_values(|e: Edit| e@);
    let mut adds = adds;
    let mut k: usize = 0;
    let n = adds.len();
    let ghost all = adds@;
    while adds.len() > 0
        invariant
            adds@ == all.skip(k as int),
            k <= n,
            n == all.len(),
            am == all.map_values(|e: Edit| e@),
            edits@.map_values(|e: Edit| e@) == start + am.take(k as int),
        decreases adds@.len(),
    {
        let e = adds.remove(0);
        let ghost before = edits@;
        edits.push(e);
        proof {
            assert(e == all[k as int]);
            assert(edits@ =~= before.push(e));
            assert(am.take(k + 1) =~= am.take(k as int).push(e@));
            assert(edits@.map_values(|x: Edit| x@) =~= before.map_values(|x: Edit| x@).push(e@));
        }
        k = k + 1;
        assert(adds@ =~= all.skip(k as int));
    }
    assert(am.take(k as int) =~= am);
}

/// The edits that translate each selected shape (`(cell index, shape)`) by
/// its offset, as one group: the shapes whose offset is not zero are removed
/// (highest index first) and added back translated, in selection order; a
/// rectangle comes back as the polygon on its corners. No edits when nothing
/// moves.
pub fn translate_edits(selected: &[(usize, DrawShape)], offsets: &[(i32, i32)], top_cell: &str) -> (r: Vec<Edit>)
    requires
        offsets@.len() == selected@.len(),
    ensures
        moving(sel_model(selected@), offsets@).len() == 0 ==> r@.len() == 0,
        moving(sel_model(selected@), offsets@).len() > 0 ==> removes_then_adds(
            r@.map_values(|e: Edit| e@),
            top_cell@,
            moving(sel_model(selected@), offsets@).map_values(|m: (usize, ShapeModel, (i32, i32))| m.0),
            translation_adds(top_cell@, moving(sel_model(selected@), offsets@)),
        ),
{
    let ghost sm = sel_model(selected@);
    let mut indices: Vec<usize> = Vec::new();
    let mut adds: Vec<Edit> = Vec::new();
    let mut k: usize = 0;
    while k < selected.len()
        invariant
            k <= selected@.len(),
            offsets@.len() == selected@.len(),
            sm == sel_model(selected@),
            indices@ == moving(sm.take(k as int), offsets@).map_values(|m: (usize, ShapeModel, (i32, i32))| m.0),
            adds@.map_values(|e: Edit| e@) == translation_adds(top_cell@, moving(sm.take(k as int), offsets@)),
        decreases selected@.len() - k,
    {
        let (dx, dy) = offsets[k];
        let ghost mv = moving(sm.take(k as int), offsets@);
        proof {
            assert(sm.take(k + 1).drop_last() =~= sm.take(k as int));
            assert(sm.take(k + 1)[k as int] == sm[k as int]);
            assert(sm[k as int] == (selected@[k as int].0, selected@[k as int].1@));
        }
        if dx != 0 || dy != 0 {
            let idx = selected[k].0;
            let shape = &selected[k].1;
            let pts = shape_points_of(shape);
            let moved = translate_points(&pts, dx, dy);
            let new_shape = with_points_of(shape, moved);
            let ghost bi = indices@;
            let ghost ba = adds@;
            indices.push(idx);
            let name = chars_of(top_cell);
            let e = Edit::AddShape { cell: string_of(&name), shape: new_shape };
            adds.push(e);
            proof {
                let m = (idx, shape@, (dx, dy));
                assert(moving(sm.take(k + 1), offsets@) == mv.push(m));
                assert(indices@ =~= bi.push(idx));
                assert(mv.push(m).map_values(|m: (usize, ShapeModel, (i32, i32))| m.0) =~= mv.map_values(
                    |m: (usize, ShapeModel, (i32, i32))| m.0,
                ).push(idx));
                assert(adds@ =~= ba.push(e));
                assert(adds@.map_values(|e: Edit| e@) =~= ba.map_values(|e: Edit| e@).push(e@));
                assert(translation_adds(top_cell@, mv.push(m)) =~= translation_adds(top_cell@, mv).push(e@));
            }
        } else {
            assert(moving(sm.take(k + 1), offsets@) == mv);
        }
        k = k + 1;
    }
    assert(sm.take(selected@.len() as int) =~= sm);
    if indices.len() == 0 {
        return Vec::new();
    }
    let mut edits = removals(top_cell, &indices);
    let ghost rm = edits@.map_values(|e: Edit| e@);
    append_edits(&mut edits, adds);
    proof {
        let order = choose|order: Seq<usize>|
            #![trigger removal_edits(top_cell@, order)]
            strictly_descending(order) && order.to_set() == indices@.to_set() && rm == removal_edits(top_cell@, order);
        assert(edits@.map_values(|e: Edit| e@) == removal_edits(top_cell@, order) + translation_adds(
            top_cell@,
            moving(sm, offsets@),
        ));
    }
    edits
}

/// The per-shape alignment offsets for `boxes` as a sequence.
pub open spec fn align_offsets_of(boxes: Seq<Rect>, kind: AlignKind) -> Seq<(i32, i32)> {
    Seq::new(boxes.len(), |i: int| align_offset(boxes_union(boxes), boxes[i], kind))
}

/// The edits that align the selected shapes (`(cell index, shape)`, each
/// with its bounding box in `boxes`) as `kind` asks, as one group: every
/// shape that moves is replaced by a translated copy; shapes already in
/// place are left alone.
pub fn align_edits(kind: AlignKind, selected: &[(usize, DrawShape)], boxes: &[Rect], top_cell: &str) -> (r: Vec<Edit>)
    requires
        boxes@.len() == selected@.len(),
    ensures
        moving(sel_model(selected@), align_offsets_of(boxes@, kind)).len() == 0 ==> r@.len() == 0,
        moving(sel_model(selected@), align_offsets_of(boxes@, kind)).len() > 0 ==> removes_then_adds(
            r@.map_values(|e: Edit| e@),
            top_cell@,
            moving(sel_model(selected@), align_offsets_of(boxes@, kind)).map_values(
                |m: (usize, ShapeModel, (i32, i32))| m.0,
            ),
            translation_adds(top_cell@, moving(sel_model(selected@), align_offsets_of(boxes@, kind))),
        ),
{
    let offsets = align_offsets(boxes, kind);
    assert(offsets@ =~= align_offsets_of(boxes@, kind));
    translate_edits(selected, &offsets, top_cell)
}

/// The center a mirror reflects about: the midpoint of the selection's
/// bounding box, rounded half away from zero.
pub open spec fn mirror_center(boxes: Seq<Rect>) -> Point {
    Point {
        x: mid_rounded(boxes_union(boxes).min.x as int, boxes_union(boxes).max.x as int) as i32,
        y: mid_rounded(boxes_union(boxes).min.y as int, boxes_union(boxes).max.y as int) as i32,
    }
}

/// The edits that replace every selected shape by its reflection about
/// `center`, as one group: all are removed (highest index first), then each
/// reflected copy is added in selection order. No edits for no selection.
pub fn replace_each_reflected(selected: &[(usize, DrawShape)], center: Point, axis: MirrorAxis, top_cell: &str) -> (r: Vec<Edit>)
    requires
        reflects_in_range(sel_model(selected@), center, axis),
    ensures
        selected@.len() == 0 ==> r@.len() == 0,
        selected@.len() > 0 ==> removes_then_adds(
            r@.map_values(|e: Edit| e@),
            top_cell@,
            sel_model(selected@).map_values(|m: (usize, ShapeModel)| m.0),
            reflection_adds(top_cell@, sel_model(selected@), center, axis),
        ),
{
    if selected.len() == 0 {
        return Vec::new();
    }
    let ghost sm = sel_model(selected@);
    let mut indices: Vec<usize> = Vec::new();
    let mut adds: Vec<Edit> = Vec::new();
    let mut k: usize = 0;
    while k < selected.len()
        invariant
            k <= selected@.len(),
            sm == sel_model(selected@),
            reflects_in_range(sm, center, axis),
            indices@ == sm.take(k as int).map_values(|m: (usize, ShapeModel)| m.0),
            adds@.map_values(|e: Edit| e@) == reflection_adds(top_cell@, sm.take(k as int), center, axis),
        decreases selected@.len() - k,
    {
        let idx = selected[k].0;
        let shape = &selected[k].1;
        proof {
            assert(sm[k as int] == (idx, shape@));
        }
        let pts = shape_points_of(shape);
        proof {
            assert forall|j: int| 0 <= j < pts@.len() implies reflect_in_range(#[trigger] pts@[j], center, axis) by {
                assert(shape_points(sm[k as int].1)[j] == pts@[j]);
            }
        }
        let mapped = reflect_points(&pts, center, axis);
        let new_shape = with_points_of(shape, mapped);
        let ghost bi = indices@;
        let ghost ba = adds@;
        indices.push(idx);
        let name = chars_of(top_cell);
        let e = Edit::AddShape { cell: string_of(&name), shape: new_shape };
        adds.push(e);
        proof {
            assert(sm.take(k + 1) =~= sm.take(k as int).push((idx, shape@)));
            assert(indices@ =~= bi.push(idx));
            assert(adds@ =~= ba.push(e));
            assert(adds@.map_values(|e: Edit| e@) =~= ba.map_values(|e: Edit| e@).push(e@));
            assert(reflection_adds(top_cell@, sm.take(k + 1), center, axis) =~= reflection_adds(
                top_cell@,
                sm.take(k as int),
                center,
                axis,
            ).push(e@));
            assert(sm.take(k + 1).map_values(|m: (usize, ShapeModel)| m.0) =~= sm.take(k as int).map_values(
                |m: (usize, ShapeModel)| m.0,
            ).push(idx));
        }
        k = k + 1;
    }
    assert(sm.take(selected@.len() as int) =~= sm);
    let mut edits = removals(top_cell, &indices);
    let ghost rm = edits@.map_values(|e: Edit| e@);
    append_edits(&mut edits, adds);
    proof {
        let order = choose|order: Seq<usize>|
            #![trigger removal_edits(top_cell@, order)]
            strictly_descending(order) && order.to_set() == indices@.to_set() && rm == removal_edits(top_cell@, order);
        assert(edits@.map_values(|e: Edit| e@) == removal_edits(top_cell@, order) + reflection_adds(
            top_cell@,
            sm,
            center,
            axis,
        ));
    }
    edits
}

/// The edits that mirror the selected shapes (`(cell index, shape)`, each
/// with its bounding box in `boxes`) across `axis` through the selection's
/// center, as one group. Exact on the integer grid. No edits for no
/// selection.
pub fn mirror_edits(axis: MirrorAxis, selected: &[(usize, DrawShape)], boxes: &[Rect], top_cell: &str) -> (r: Vec<Edit>)
    requires
        boxes@.len() == selected@.len(),
        boxes@.len() > 0 ==> reflects_in_range(sel_model(selected@), mirror_center(boxes@), axis),
    ensures
        selected@.len() == 0 ==> r@.len() == 0,
        selected@.len() > 0 ==> removes_then_adds(
            r@.map_values(|e: Edit| e@),
            top_cell@,
            sel_model(selected@).map_values(|m: (usize, ShapeModel)| m.0),
            reflection_adds(top_cell@, sel_model(selected@), mirror_center(boxes@), axis),
        ),
{
    match selection_center(boxes) {
        None => Vec::new(),
        Some(center) => replace_each_reflected(selected, center, axis, top_cell),
    }
}
} // verus!
