//! Productivity editing: clipboard, duplicate, array, move-by-delta, and via
//! stacks.
//!
//! Every helper here is pure: it reads shapes and rules and returns owned
//! shape lists, which the editor wraps in undoable edits.
use vstd::prelude::*;
use crate::geom::{
    clamp_i32, clamp_to_i32, rect_of, saturating_add_i32, saturating_sub_i32, DrawShape, KindModel,
    LayerId, Path, PathModel, Point, Polygon, Rect, ShapeKind, ShapeModel,
};

verus! {

/// The largest number of array elements the array tool expands at once.
pub const MAX_ARRAY_ELEMENTS: u64 = 100_000;

/// The total number of elements a `rows` x `columns` array expands to, as a
/// `u64` so the [`MAX_ARRAY_ELEMENTS`] guard never itself overflows.
pub fn array_element_count(rows: u32, columns: u32) -> (r: u64)
    ensures
        r == rows * columns,
{
    assert(rows * columns <= 0xffff_ffff * 0xffff_ffff) by (nonlinear_arith)
        requires
            rows <= 0xffff_ffff,
            columns <= 0xffff_ffff,
    ;
    rows as u64 * columns as u64
}

/// `pitch * index`, clamped into the DBU range.
pub open spec fn pitch_step(pitch: i32, index: int) -> i32 {
    clamp_i32(pitch * index)
}

/// The offset of element `k` (row-major) of an array with `columns` columns.
pub open spec fn array_offset(k: int, columns: int, row_pitch: i32, column_pitch: i32) -> (
    i32,
    i32,
) {
    (pitch_step(column_pitch, k % columns), pitch_step(row_pitch, k / columns))
}

fn saturating_mul_index(pitch: i32, index: u32) -> (r: i32)
    ensures
        r == pitch_step(pitch, index as int),
{
    assert(-0x8000_0000 * 0xffff_ffff <= pitch * index <= 0x7fff_ffff * 0xffff_ffff)
        by (nonlinear_arith)
        requires
            -0x8000_0000 <= pitch <= 0x7fff_ffff,
            0 <= index <= 0xffff_ffff,
    ;
    clamp_to_i32(pitch as i64 * index as i64)
}

/// The per-element `(dx, dy)` offsets of a `rows` x `columns` array, in
/// row-major order: column `c` is `c * column_pitch` in x and row `r` is
/// `r * row_pitch` in y, each saturated into the DBU range.
pub fn array_offsets(rows: u32, columns: u32, row_pitch: i32, column_pitch: i32) -> (r: Vec<
    (i32, i32),
>)
    requires
        rows * columns <= usize::MAX,
    ensures
        r.len() == rows * columns,
        forall|k: int|
            0 <= k < r.len() ==> #[trigger] r@[k] == array_offset(
                k,
                columns as int,
                row_pitch,
                column_pitch,
            ),
{
    let mut offsets: Vec<(i32, i32)> = Vec::new();
    let mut row: u32 = 0;
    while row < rows
        invariant
            row <= rows,
            rows * columns <= usize::MAX,
            offsets.len() == row * columns,
            forall|k: int|
                0 <= k < offsets.len() ==> #[trigger] offsets@[k] == array_offset(
                    k,
                    columns as int,
                    row_pitch,
                    column_pitch,
                ),
        decreases rows - row,
    {
        let dy = saturating_mul_index(row_pitch, row);
        let mut col: u32 = 0;
        assert(row * columns + columns <= rows * columns) by (nonlinear_arith)
            requires
                row < rows,
        ;
        while col < columns
            invariant
                row < rows,
                col <= columns,
                row * columns + columns <= rows * columns,
                rows * columns <= usize::MAX,
                dy == pitch_step(row_pitch, row as int),
                offsets.len() == row * columns + col,
                forall|k: int|
                    0 <= k < offsets.len() ==> #[trigger] offsets@[k] == array_offset(
                        k,
                        columns as int,
                        row_pitch,
                        column_pitch,
                    ),
            decreases columns - col,
        {
            let dx = saturating_mul_index(column_pitch, col);
            proof {
                vstd::arithmetic::div_mod::lemma_fundamental_div_mod_converse(
                    row * columns + col,
                    columns as int,
                    row as int,
                    col as int,
                );
            }
            offsets.push((dx, dy));
            col = col + 1;
        }
        assert((row + 1) * columns == row * columns + columns) by (nonlinear_arith);
        row = row + 1;
    }
    offsets
}

/// `(a + b) / 2`, rounded toward zero.
pub open spec fn midpoint(a: int, b: int) -> int {
    if a + b >= 0 {
        (a + b) / 2
    } else {
        -((-(a + b)) / 2)
    }
}

/// The center point of a rectangle, rounding toward zero on an odd span.
pub fn rect_center(rect: Rect) -> (r: Point)
    ensures
        r.x == midpoint(rect.min.x as int, rect.max.x as int),
        r.y == midpoint(rect.min.y as int, rect.max.y as int),
{
    let sx = rect.min.x as i64 + rect.max.x as i64;
    let sy = rect.min.y as i64 + rect.max.y as i64;
    let cx = if sx >= 0 {
        sx / 2
    } else {
        -((-sx) / 2)
    };
    let cy = if sy >= 0 {
        sy / 2
    } else {
        -((-sy) / 2)
    };
    Point::new(clamp_to_i32(cx), clamp_to_i32(cy))
}

/// The kinds of design rule a technology declares.
#[derive(Clone, Copy, PartialEq, Eq, Debug, Structural)]
pub enum RuleKind {
    /// A minimum width on one layer.
    Width,
    /// A minimum spacing on one layer or between two layers.
    Spacing,
    /// A minimum enclosure of one layer by another.
    Enclosure,
    /// A minimum area on one layer.
    Area,
}

/// One design rule of a technology.
#[derive(Clone, Debug)]
pub struct Rule {
    /// The rule's name.
    pub name: String,
    /// What the rule constrains.
    pub kind: RuleKind,
    /// The primary layer (for an enclosure rule, the enclosing layer).
    pub layer: LayerId,
    /// The second layer, for two-layer rules (the enclosed layer).
    pub other_layer: Option<LayerId>,
    /// The rule value in DBU.
    pub value: i64,
}

/// The design rules of a technology, as the via-stack builder reads them.
#[derive(Clone, Debug)]
pub struct Technology {
    /// The technology's rules.
    pub rules: Vec<Rule>,
}

/// Whether `rule` is an enclosure of `inner_layer` by `outer_layer`.
pub open spec fn encloses(rule: Rule, outer_layer: LayerId, inner_layer: LayerId) -> bool {
    rule.kind == RuleKind::Enclosure && rule.layer == outer_layer && rule.other_layer == Some(
        inner_layer,
    )
}

/// The largest clamped value among the enclosure rules of `inner_layer` by
/// `outer_layer` in `rules`, or `None` if there is none.
pub open spec fn required_enclosure(rules: Seq<Rule>, outer_layer: LayerId, inner_layer: LayerId) -> Option<i32>
    decreases rules.len(),
{
    if rules.len() == 0 {
        None
    } else {
        let rest = required_enclosure(rules.drop_last(), outer_layer, inner_layer);
        if encloses(rules.last(), outer_layer, inner_layer) {
            let v = clamp_i32(rules.last().value as int);
            match rest {
                Some(b) => Some(if v > b { v } else { b }),
                None => Some(v),
            }
        } else {
            rest
        }
    }
}

/// The minimum enclosure of `inner_layer` by `outer_layer` that `rules`
/// require, in DBU (the largest such rule's value, clamped into the DBU
/// range), or `None` if no rule declares one.
pub fn enclosure_of(rules: &[Rule], outer_layer: LayerId, inner_layer: LayerId) -> (r: Option<
    i32,
>)
    ensures
        r == required_enclosure(rules@, outer_layer, inner_layer),
        r is None <==> (forall|i: int|
            0 <= i < rules.len() ==> !encloses(#[trigger] rules@[i], outer_layer, inner_layer)),
        r matches Some(v) ==> (exists|i: int|
            0 <= i < rules.len() && encloses(#[trigger] rules@[i], outer_layer, inner_layer)
                && v == clamp_i32(rules@[i].value as int)),
        r matches Some(v) ==> (forall|i: int|
            0 <= i < rules.len() && encloses(#[trigger] rules@[i], outer_layer, inner_layer)
                ==> clamp_i32(rules@[i].value as int) <= v),
{
    let mut best: Option<i32> = None;
    let mut i: usize = 0;
    while i < rules.len()
        invariant
            i <= rules.len(),
            best == required_enclosure(rules@.subrange(0, i as int), outer_layer, inner_layer),
            best is None <==> (forall|j: int|
                0 <= j < i ==> !encloses(#[trigger] rules@[j], outer_layer, inner_layer)),
            best matches Some(v) ==> (exists|j: int|
                0 <= j < i && encloses(#[trigger] rules@[j], outer_layer, inner_layer) && v
                    == clamp_i32(rules@[j].value as int)),
            best matches Some(v) ==> (forall|j: int|
                0 <= j < i && encloses(#[trigger] rules@[j], outer_layer, inner_layer)
                    ==> clamp_i32(rules@[j].value as int) <= v),
        decreases rules.len() - i,
    {
        assert(rules@.subrange(0, i + 1).drop_last() =~= rules@.subrange(0, i as int));
        let rule = &rules[i];
        let matches_other = match rule.other_layer {
            Some(l) => l == inner_layer,
            None => false,
        };
        if rule.kind == RuleKind::Enclosure && rule.layer == outer_layer && matches_other {
            let v = clamp_to_i32(rule.value);
            match best {
                Some(b) => {
                    if v > b {
                        best = Some(v);
                    }
                },
                None => {
                    best = Some(v);
                },
            }
        }
        i = i + 1;
    }
    assert(rules@.subrange(0, rules.len() as int) =~= rules@);
    best
}

/// `points`, each moved by `(dx, dy)` with saturation.
pub open spec fn moved_points(points: Seq<Point>, dx: int, dy: int) -> Seq<Point> {
    points.map_values(|p: Point| p.moved(dx, dy))
}

/// A shape moved by `(dx, dy)`: same layer and kind, every coordinate moved
/// with saturation.
pub open spec fn translated(shape: ShapeModel, dx: int, dy: int) -> ShapeModel {
    ShapeModel {
        layer: shape.layer,
        kind: match shape.kind {
            KindModel::Rect(r) => KindModel::Rect(rect_of(r.min.moved(dx, dy), r.max.moved(dx, dy))),
            KindModel::Polygon(vs) => KindModel::Polygon(moved_points(vs, dx, dy)),
            KindModel::Path(p) => KindModel::Path(
                PathModel { points: moved_points(p.points, dx, dy), width: p.width, endcap: p.endcap },
            ),
        },
    }
}

pub(crate) fn translate_points(points: &[Point], dx: i32, dy: i32) -> (r: Vec<Point>)
    ensures
        r@ == moved_points(points@, dx as int, dy as int),
{
    let mut out: Vec<Point> = Vec::new();
    let mut i: usize = 0;
    while i < points.len()
        invariant
            i <= points.len(),
            out@ == moved_points(points@.subrange(0, i as int), dx as int, dy as int),
        decreases points.len() - i,
    {
        out.push(points[i].translate(dx, dy));
        i = i + 1;
        assert(out@ =~= moved_points(points@.subrange(0, i as int), dx as int, dy as int));
    }
    assert(points@.subrange(0, points.len() as int) =~= points@);
    out
}

/// Translates a drawable shape by `(dx, dy)` DBU, preserving its layer and
/// kind; each coordinate saturates at the DBU range rather than wrapping.
pub fn translate_shape(shape: &DrawShape, dx: i32, dy: i32) -> (r: DrawShape)
    ensures
        r@ == translated(shape@, dx as int, dy as int),
{
    let kind = match &shape.kind {
        ShapeKind::Rect(rect) => ShapeKind::Rect(
            Rect::new(rect.min.translate(dx, dy), rect.max.translate(dx, dy)),
        ),
        ShapeKind::Polygon(poly) => ShapeKind::Polygon(
            Polygon::new(translate_points(poly.vertices(), dx, dy)),
        ),
        ShapeKind::Path(path) => ShapeKind::Path(
            Path::new(translate_points(path.points(), dx, dy), path.width(), path.endcap()),
        ),
    };
    DrawShape::new(shape.layer, kind)
}

/// Translates every shape in `shapes` by `(dx, dy)` DBU, in order.
pub fn translate_shapes(shapes: &[DrawShape], dx: i32, dy: i32) -> (r: Vec<DrawShape>)
    ensures
        r.len() == shapes.len(),
        forall|i: int|
            0 <= i < r.len() ==> #[trigger] r@[i]@ == translated(shapes@[i]@, dx as int, dy as int),
{
    let mut out: Vec<DrawShape> = Vec::new();
    let mut i: usize = 0;
    while i < shapes.len()
        invariant
            i <= shapes.len(),
            out.len() == i,
            forall|j: int|
                0 <= j < i ==> #[trigger] out@[j]@ == translated(shapes@[j]@, dx as int, dy as int),
        decreases shapes.len() - i,
    {
        out.push(translate_shape(&shapes[i], dx, dy));
        i = i + 1;
    }
    out
}

/// Element `k` of `shapes` arrayed: source shape `k % n` moved by the offset of
/// array element `k / n`, where `n` is the number of source shapes.
pub open spec fn arrayed_shape(
    shapes: Seq<DrawShape>,
    k: int,
    columns: int,
    row_pitch: i32,
    column_pitch: i32,
) -> ShapeModel {
    let n = shapes.len() as int;
    let off = array_offset(k / n, columns, row_pitch, column_pitch);
    translated(shapes[k % n]@, off.0 as int, off.1 as int)
}

/// Expands `shapes` into a `rows` x `columns` array: every source shape is
/// stamped once per array element at that element's offset (see
/// [`array_offsets`]), element-major then shape order, so the result has
/// `shapes.len() * rows * columns` entries and element `(0, 0)` reproduces
/// the input.
pub fn array_shapes(
    shapes: &[DrawShape],
    rows: u32,
    columns: u32,
    row_pitch: i32,
    column_pitch: i32,
) -> (r: Vec<DrawShape>)
    requires
        rows * columns * shapes.len() <= usize::MAX,
    ensures
        r.len() == rows * columns * shapes.len(),
        forall|k: int|
            0 <= k < r.len() ==> #[trigger] r@[k]@ == arrayed_shape(
                shapes@,
                k,
                columns as int,
                row_pitch,
                column_pitch,
            ),
{
    let n = shapes.len();
    proof {
        if n > 0 {
            assert(rows * columns <= rows * columns * n) by (nonlinear_arith)
                requires
                    n > 0,
            ;
        } else {
            assert(rows * columns * n == 0) by (nonlinear_arith)
                requires
                    n == 0,
            ;
        }
    }
    if n == 0 {
        return Vec::new();
    }
    let offsets = array_offsets(rows, columns, row_pitch, column_pitch);
    let mut out: Vec<DrawShape> = Vec::new();
    let mut e: usize = 0;
    while e < offsets.len()
        invariant
            n == shapes.len(),
            n > 0,
            e <= offsets.len(),
            offsets.len() == rows * columns,
            rows * columns * n <= usize::MAX,
            out.len() == e * n,
            forall|k: int|
                0 <= k < offsets.len() ==> #[trigger] offsets@[k] == array_offset(
                    k,
                    columns as int,
                    row_pitch,
                    column_pitch,
                ),
            forall|k: int|
                0 <= k < out.len() ==> #[trigger] out@[k]@ == arrayed_shape(
                    shapes@,
                    k,
                    columns as int,
                    row_pitch,
                    column_pitch,
                ),
        decreases offsets.len() - e,
    {
        let (dx, dy) = offsets[e];
        assert(e * n + n <= rows * columns * n) by (nonlinear_arith)
            requires
                e < rows * columns,
        ;
        let mut s: usize = 0;
        while s < n
            invariant
                n == shapes.len(),
                n > 0,
                e < offsets.len(),
                offsets.len() == rows * columns,
                e * n + n <= rows * columns * n,
                rows * columns * n <= usize::MAX,
                (dx, dy) == array_offset(e as int, columns as int, row_pitch, column_pitch),
                s <= n,
                out.len() == e * n + s,
                forall|k: int|
                    0 <= k < out.len() ==> #[trigger] out@[k]@ == arrayed_shape(
                        shapes@,
                        k,
                        columns as int,
                        row_pitch,
                        column_pitch,
                    ),
            decreases n - s,
        {
            proof {
                vstd::arithmetic::div_mod::lemma_fundamental_div_mod_converse(
                    e * n + s,
                    n as int,
                    e as int,
                    s as int,
                );
            }
            out.push(translate_shape(&shapes[s], dx, dy));
            s = s + 1;
        }
        assert((e + 1) * n == e * n + n) by (nonlinear_arith);
        e = e + 1;
    }
    out
}

/// An in-app clipboard of shapes, held in world coordinates.
#[derive(Clone, Debug)]
pub struct Clipboard {
    shapes: Vec<DrawShape>,
}

impl View for Clipboard {
    type V = Seq<DrawShape>;

    closed spec fn view(&self) -> Seq<DrawShape> {
        self.shapes@
    }
}

impl Clipboard {
    /// An empty clipboard.
    pub fn new() -> (r: Clipboard)
        ensures
            r@ == Seq::<DrawShape>::empty(),
    {
        Clipboard { shapes: Vec::new() }
    }

    /// Replaces the clipboard contents with `shapes` (a copy or cut).
    pub fn set(&mut self, shapes: Vec<DrawShape>)
        ensures
            final(self)@ == shapes@,
    {
        self.shapes = shapes;
    }

    /// The clipboard's shapes, in the order they were copied.
    pub fn shapes(&self) -> (r: &[DrawShape])
        ensures
            r@ == self@,
    {
        self.shapes.as_slice()
    }

    /// The number of shapes on the clipboard.
    pub fn len(&self) -> (r: usize)
        ensures
            r == self@.len(),
    {
        self.shapes.len()
    }

    /// Whether the clipboard holds no shapes.
    pub fn is_empty(&self) -> (r: bool)
        ensures
            r == (self@.len() == 0),
    {
        self.shapes.len() == 0
    }

    /// Empties the clipboard.
    pub fn clear(&mut self)
        ensures
            final(self)@ == Seq::<DrawShape>::empty(),
    {
        self.shapes.clear();
    }
}

/// A resolved via stack: the cut plus the two enclosures, in world
/// coordinates.
#[derive(Clone, PartialEq, Debug)]
pub struct ViaStack {
    /// The cut square on the cut layer.
    pub cut: DrawShape,
    /// The enclosure rectangle on the lower layer.
    pub lower_enclosure: DrawShape,
    /// The enclosure rectangle on the upper layer.
    pub upper_enclosure: DrawShape,
}

impl ViaStack {
    /// The three shapes in commit order: cut, lower enclosure, upper
    /// enclosure.
    pub fn shapes(&self) -> (r: [&DrawShape; 3])
        ensures
            *r[0] == self.cut,
            *r[1] == self.lower_enclosure,
            *r[2] == self.upper_enclosure,
    {
        [&self.cut, &self.lower_enclosure, &self.upper_enclosure]
    }

    /// The three shapes as an owned list, in commit order.
    pub fn into_shapes(self) -> (r: Vec<DrawShape>)
        ensures
            r@ == seq![self.cut, self.lower_enclosure, self.upper_enclosure],
    {
        let mut out: Vec<DrawShape> = Vec::new();
        out.push(self.cut);
        out.push(self.lower_enclosure);
        out.push(self.upper_enclosure);
        out
    }
}

/// The cut square of side `cut_size` centered on `center`: an odd size
/// rounds the far corner up, so the drawn size is never smaller than asked.
pub open spec fn cut_rect(center: Point, cut_size: int) -> Rect {
    let half = cut_size / 2;
    rect_of(
        Point { x: clamp_i32(center.x - half), y: clamp_i32(center.y - half) },
        Point { x: clamp_i32(center.x + (cut_size - half)), y: clamp_i32(center.y + (cut_size - half)) },
    )
}

/// The margin an enclosure layer gets: its rule, else the fallback, never
/// below zero.
pub open spec fn enclosure_margin(rules: Seq<Rule>, layer: LayerId, cut_layer: LayerId, default_enclosure: i32) -> int {
    let m = match required_enclosure(rules, layer, cut_layer) {
        Some(v) => v as int,
        None => default_enclosure as int,
    };
    if m >= 0 { m } else { 0 }
}

/// A rectangle on a layer, as plain values.
pub open spec fn rect_shape(layer: LayerId, r: Rect) -> ShapeModel {
    ShapeModel { layer, kind: KindModel::Rect(r) }
}

/// Builds a via stack centered at `center`: a square cut of side `cut_size`
/// on `cut_layer`, enclosed on `lower_layer` and `upper_layer` by the margins
/// the technology's enclosure rules require (`default_enclosure` where a
/// layer has no rule). Each enclosure is the cut grown by its margin. `None`
/// when `cut_size` is not positive.
pub fn via_stack_shapes(
    tech: &Technology,
    lower_layer: LayerId,
    upper_layer: LayerId,
    cut_layer: LayerId,
    center: Point,
    cut_size: i32,
    default_enclosure: i32,
) -> (r: Option<ViaStack>)
    ensures
        r is None <==> cut_size <= 0,
        r matches Some(v) ==> {
            let cut = cut_rect(center, cut_size as int);
            let rules = tech.rules@;
            &&& v.cut@ == rect_shape(cut_layer, cut)
            &&& v.lower_enclosure@ == rect_shape(
                lower_layer,
                cut.grown(enclosure_margin(rules, lower_layer, cut_layer, default_enclosure)),
            )
            &&& v.upper_enclosure@ == rect_shape(
                upper_layer,
                cut.grown(enclosure_margin(rules, upper_layer, cut_layer, default_enclosure)),
            )
        },
{
    if cut_size <= 0 {
        return None;
    }
    let half = cut_size / 2;
    let cut_rect = Rect::new(
        Point::new(saturating_sub_i32(center.x, half), saturating_sub_i32(center.y, half)),
        Point::new(
            saturating_add_i32(center.x, cut_size - half),
            saturating_add_i32(center.y, cut_size - half),
        ),
    );
    let lower_margin = match enclosure_of(tech.rules.as_slice(), lower_layer, cut_layer) {
        Some(v) => v,
        None => default_enclosure,
    };
    let upper_margin = match enclosure_of(tech.rules.as_slice(), upper_layer, cut_layer) {
        Some(v) => v,
        None => default_enclosure,
    };
    let lower_margin = if lower_margin >= 0 {
        lower_margin
    } else {
        0
    };
    let upper_margin = if upper_margin >= 0 {
        upper_margin
    } else {
        0
    };
    let cut = DrawShape::new(cut_layer, ShapeKind::Rect(cut_rect));
    let lower_enclosure = DrawShape::new(lower_layer, ShapeKind::Rect(cut_rect.expanded(lower_margin)));
    let upper_enclosure = DrawShape::new(upper_layer, ShapeKind::Rect(cut_rect.expanded(upper_margin)));
    Some(ViaStack { cut, lower_enclosure, upper_enclosure })
}

/// The productivity panel's editable field state.
#[derive(Clone, Debug)]
pub struct ProductivityState {
    /// The in-app clipboard (copy/cut source for paste).
    pub clipboard: Clipboard,
    /// Paste/duplicate offset in x (DBU).
    pub paste_dx: i32,
    /// Paste/duplicate offset in y (DBU).
    pub paste_dy: i32,
    /// Array row count.
    pub array_rows: u32,
    /// Array column count.
    pub array_cols: u32,
    /// Array row pitch (DBU).
    pub array_row_pitch: i32,
    /// Array column pitch (DBU).
    pub array_col_pitch: i32,
    /// Whether the array live preview is drawn before commit.
    pub array_preview: bool,
    /// Move-by-delta x component (DBU).
    pub move_dx: i32,
    /// Move-by-delta y component (DBU).
    pub move_dy: i32,
    /// The lower layer for the via-stack builder.
    pub via_lower: LayerId,
    /// The upper layer for the via-stack builder.
    pub via_upper: LayerId,
    /// The cut layer for the via-stack builder.
    pub via_cut: LayerId,
    /// The cut square side length (DBU).
    pub via_cut_size: i32,
    /// Fallback enclosure margin (DBU) when the technology declares no rule.
    pub via_default_enclosure: i32,
    /// Via-stack center x (DBU).
    pub via_center_x: i32,
    /// Via-stack center y (DBU).
    pub via_center_y: i32,
}

/// Whether `s` holds the panel's opening values: a 2 x 2 array at 1000 DBU
/// pitch with preview on, a 200 DBU paste offset, a zero move, and a
/// 200 DBU cut between layers 4/0 and 5/0 on 7/0 with a 50 DBU fallback
/// enclosure at the origin.
pub open spec fn is_initial_state(s: ProductivityState) -> bool {
    &&& s.clipboard@.len() == 0
    &&& s.paste_dx == 200 && s.paste_dy == 200
    &&& s.array_rows == 2 && s.array_cols == 2
    &&& s.array_row_pitch == 1000 && s.array_col_pitch == 1000
    &&& s.array_preview
    &&& s.move_dx == 0 && s.move_dy == 0
    &&& s.via_lower == (LayerId { layer: 4, datatype: 0 })
    &&& s.via_upper == (LayerId { layer: 5, datatype: 0 })
    &&& s.via_cut == (LayerId { layer: 7, datatype: 0 })
    &&& s.via_cut_size == 200 && s.via_default_enclosure == 50
    &&& s.via_center_x == 0 && s.via_center_y == 0
}

impl Default for ProductivityState {
    fn default() -> (r: Self)
        ensures
            is_initial_state(r),
    {
        ProductivityState {
            clipboard: Clipboard::new(),
            paste_dx: 200,
            paste_dy: 200,
            array_rows: 2,
            array_cols: 2,
            array_row_pitch: 1000,
            array_col_pitch: 1000,
            array_preview: true,
            move_dx: 0,
            move_dy: 0,
            via_lower: LayerId::new(4, 0),
            via_upper: LayerId::new(5, 0),
            via_cut: LayerId::new(7, 0),
            via_cut_size: 200,
            via_default_enclosure: 50,
            via_center_x: 0,
            via_center_y: 0,
        }
    }
}

impl ProductivityState {
    /// The panel's opening state.
    pub fn new() -> (r: Self)
        ensures
            is_initial_state(r),
    {
        <ProductivityState as Default>::default()
    }

    /// The number of elements the current array parameters expand to.
    pub fn array_count(&self) -> (r: u64)
        ensures
            r == self.array_rows * self.array_cols,
    {
        array_element_count(self.array_rows, self.array_cols)
    }

    /// Whether the current array parameters give at least one element and
    /// stay within [`MAX_ARRAY_ELEMENTS`].
    pub fn array_is_committable(&self) -> (r: bool)
        ensures
            r == (self.array_rows * self.array_cols > 0 && self.array_rows * self.array_cols
                <= MAX_ARRAY_ELEMENTS),
    {
        let count = self.array_count();
        count > 0 && count <= MAX_ARRAY_ELEMENTS
    }

    /// `shapes` expanded per the current array parameters.
    pub fn array_expand(&self, shapes: &[DrawShape]) -> (r: Vec<DrawShape>)
        requires
            self.array_rows * self.array_cols * shapes.len() <= usize::MAX,
        ensures
            r.len() == self.array_rows * self.array_cols * shapes.len(),
            forall|k: int|
                0 <= k < r.len() ==> #[trigger] r@[k]@ == arrayed_shape(
                    shapes@,
                    k,
                    self.array_cols as int,
                    self.array_row_pitch,
                    self.array_col_pitch,
                ),
    {
        array_shapes(
            shapes,
            self.array_rows,
            self.array_cols,
            self.array_row_pitch,
            self.array_col_pitch,
        )
    }

    /// The via stack for the current picks and center, or `None` if the cut
    /// size is not positive.
    pub fn build_via_stack(&self, tech: &Technology) -> (r: Option<ViaStack>)
        ensures
            r is None <==> self.via_cut_size <= 0,
            r matches Some(v) ==> {
                let cut = cut_rect(
                    Point { x: self.via_center_x, y: self.via_center_y },
                    self.via_cut_size as int,
                );
                let rules = tech.rules@;
                &&& v.cut@ == rect_shape(self.via_cut, cut)
                &&& v.lower_enclosure@ == rect_shape(
                    self.via_lower,
                    cut.grown(
                        enclosure_margin(rules, self.via_lower, self.via_cut, self.via_default_enclosure),
                    ),
                )
                &&& v.upper_enclosure@ == rect_shape(
                    self.via_upper,
                    cut.grown(
                        enclosure_margin(rules, self.via_upper, self.via_cut, self.via_default_enclosure),
                    ),
                )
            },
    {
        via_stack_shapes(
            tech,
            self.via_lower,
            self.via_upper,
            self.via_cut,
            Point::new(self.via_center_x, self.via_center_y),
            self.via_cut_size,
            self.via_default_enclosure,
        )
    }
}

/// Whether a shape's rectangle, if it is one, has its corners in order (as
/// every rectangle built by [`Rect::new`] does).
pub open spec fn rect_normalized(shape: ShapeModel) -> bool {
    match shape.kind {
        KindModel::Rect(r) => r.wf(),
        _ => true,
    }
}

/// Moving a shape by nothing leaves it as it was.
pub proof fn lemma_translated_by_zero(shape: ShapeModel)
    requires
        rect_normalized(shape),
    ensures
        translated(shape, 0, 0) == shape,
{
    match shape.kind {
        KindModel::Rect(r) => {
            assert(r.min.moved(0, 0) == r.min);
            assert(r.max.moved(0, 0) == r.max);
        },
        KindModel::Polygon(vs) => {
            assert(moved_points(vs, 0, 0) =~= vs);
        },
        KindModel::Path(p) => {
            assert(moved_points(p.points, 0, 0) =~= p.points);
        },
    }
}

/// The first array element, element `(0, 0)`, reproduces the source shapes
/// unmoved.
pub proof fn lemma_first_array_element_is_input(
    shapes: Seq<DrawShape>,
    k: int,
    columns: int,
    row_pitch: i32,
    column_pitch: i32,
)
    requires
        0 <= k < shapes.len(),
        columns >= 1,
        rect_normalized(shapes[k]@),
    ensures
        arrayed_shape(shapes, k, columns, row_pitch, column_pitch) == shapes[k]@,
{
    let n = shapes.len() as int;
    assert(k / n == 0 && k % n == k) by (nonlinear_arith)
        requires
            0 <= k < n,
    ;
    assert(0int % columns == 0 && 0int / columns == 0) by (nonlinear_arith)
        requires
            columns >= 1,
    ;
    assert(array_offset(0, columns, row_pitch, column_pitch) == (0i32, 0i32));
    lemma_translated_by_zero(shapes[k]@);
}

/// Whether rectangle `outer` covers rectangle `inner` (edges inclusive).
pub open spec fn rect_covers(outer: Rect, inner: Rect) -> bool {
    outer.min.x <= inner.min.x && outer.min.y <= inner.min.y && inner.max.x <= outer.max.x
        && inner.max.y <= outer.max.y
}

/// Every enclosure of a via stack covers its cut, whatever margin applies.
pub proof fn lemma_via_enclosures_cover_cut(
    rules: Seq<Rule>,
    layer: LayerId,
    cut_layer: LayerId,
    center: Point,
    cut_size: int,
    default_enclosure: i32,
)
    ensures
        rect_covers(
            cut_rect(center, cut_size).grown(enclosure_margin(rules, layer, cut_layer, default_enclosure)),
            cut_rect(center, cut_size),
        ),
{
}

} // verus!
