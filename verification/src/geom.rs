//! The plain geometry the editor's selection and query logic reads: layer ids,
//! integer points, axis-aligned rectangles, and a shape's layer plus bounding
//! box.
use vstd::prelude::*;

verus! {

/// A GDSII layer and datatype pair.
#[derive(Clone, Copy, PartialEq, Eq, Debug, Hash, PartialOrd, Ord, Structural)]
pub struct LayerId {
    /// The layer number.
    pub layer: u16,
    /// The datatype number.
    pub datatype: u16,
}

impl LayerId {
    /// The layer `layer`/`datatype`.
    pub fn new(layer: u16, datatype: u16) -> (r: LayerId)
        ensures
            r.layer == layer,
            r.datatype == datatype,
    {
        LayerId { layer, datatype }
    }
}

/// A point in database units.
#[derive(Clone, Copy, PartialEq, Eq, Debug, Hash, Structural)]
pub struct Point {
    /// X coordinate.
    pub x: i32,
    /// Y coordinate.
    pub y: i32,
}

/// `v` clamped into the `i32` range.
pub open spec fn clamp_i32(v: int) -> i32 {
    if v < i32::MIN {
        i32::MIN
    } else if v > i32::MAX {
        i32::MAX
    } else {
        v as i32
    }
}

/// Clamps a widened value into the `i32` range.
pub fn clamp_to_i32(v: i64) -> (r: i32)
    ensures
        r == clamp_i32(v as int),
{
    if v < i32::MIN as i64 {
        i32::MIN
    } else if v > i32::MAX as i64 {
        i32::MAX
    } else {
        v as i32
    }
}

/// `a + b`, saturating at the bounds of `i32`.
pub fn saturating_add_i32(a: i32, b: i32) -> (r: i32)
    ensures
        r == clamp_i32(a + b),
{
    clamp_to_i32(a as i64 + b as i64)
}

/// `a - b`, saturating at the bounds of `i32`.
pub fn saturating_sub_i32(a: i32, b: i32) -> (r: i32)
    ensures
        r == clamp_i32(a - b),
{
    clamp_to_i32(a as i64 - b as i64)
}

/// The squared Euclidean distance between `a` and `b`.
pub open spec fn dist_sq(a: Point, b: Point) -> int {
    (b.x - a.x) * (b.x - a.x) + (b.y - a.y) * (b.y - a.y)
}

impl Point {
    /// The point `(x, y)`.
    pub fn new(x: i32, y: i32) -> (r: Point)
        ensures
            r.x == x,
            r.y == y,
    {
        Point { x, y }
    }

    /// The point moved by `(dx, dy)`, each coordinate saturating at the DBU
    /// range.
    pub open spec fn moved(self, dx: int, dy: int) -> Point {
        Point { x: clamp_i32(self.x + dx), y: clamp_i32(self.y + dy) }
    }

    /// The squared Euclidean distance from this point to `other`, exactly.
    pub fn distance_squared(&self, other: Point) -> (r: i128)
        ensures
            r == dist_sq(*self, other),
    {
        let dx = other.x as i128 - self.x as i128;
        let dy = other.y as i128 - self.y as i128;
        assert(dx * dx <= 0x1_0000_0000 * 0x1_0000_0000 && dy * dy <= 0x1_0000_0000 * 0x1_0000_0000)
            by (nonlinear_arith)
            requires
                -0x1_0000_0000 <= dx <= 0x1_0000_0000,
                -0x1_0000_0000 <= dy <= 0x1_0000_0000,
        ;
        assert(dx * dx >= 0 && dy * dy >= 0) by (nonlinear_arith);
        dx * dx + dy * dy
    }

    /// This point moved by `(dx, dy)`; a coordinate that would leave the DBU
    /// range clamps to its bound rather than wrapping.
    pub fn translate(&self, dx: i32, dy: i32) -> (r: Point)
        ensures
            r == self.moved(dx as int, dy as int),
    {
        Point { x: saturating_add_i32(self.x, dx), y: saturating_add_i32(self.y, dy) }
    }
}

/// An axis-aligned rectangle with `min <= max` on both axes.
#[derive(Clone, Copy, PartialEq, Eq, Debug, Hash, Structural)]
pub struct Rect {
    /// The lower-left corner.
    pub min: Point,
    /// The upper-right corner.
    pub max: Point,
}

/// The smaller of two coordinates.
pub open spec fn min_i32(a: i32, b: i32) -> i32 {
    if a <= b {
        a
    } else {
        b
    }
}

/// The larger of two coordinates.
pub open spec fn max_i32(a: i32, b: i32) -> i32 {
    if a >= b {
        a
    } else {
        b
    }
}

/// The rectangle spanned by two opposite corners, normalized.
pub open spec fn rect_of(a: Point, b: Point) -> Rect {
    Rect {
        min: Point { x: min_i32(a.x, b.x), y: min_i32(a.y, b.y) },
        max: Point { x: max_i32(a.x, b.x), y: max_i32(a.y, b.y) },
    }
}

/// Two opposite corners span the same rectangle in either order, and that
/// rectangle is normalized.
pub proof fn lemma_rect_of_either_order(a: Point, b: Point)
    ensures
        rect_of(a, b) == rect_of(b, a),
        rect_of(a, b).wf(),
{
}

impl Rect {
    /// Whether `min <= max` on both axes.
    pub open spec fn wf(self) -> bool {
        self.min.x <= self.max.x && self.min.y <= self.max.y
    }

    /// The rectangle spanned by the corners `a` and `b` (in either order).
    pub fn new(a: Point, b: Point) -> (r: Rect)
        ensures
            r == rect_of(a, b),
            r.wf(),
    {
        let min = Point {
            x: if a.x <= b.x {
                a.x
            } else {
                b.x
            },
            y: if a.y <= b.y {
                a.y
            } else {
                b.y
            },
        };
        let max = Point {
            x: if a.x >= b.x {
                a.x
            } else {
                b.x
            },
            y: if a.y >= b.y {
                a.y
            } else {
                b.y
            },
        };
        Rect { min, max }
    }

    /// The width in DBU.
    pub fn width(&self) -> (r: i64)
        ensures
            r == self.max.x - self.min.x,
    {
        self.max.x as i64 - self.min.x as i64
    }

    /// The height in DBU.
    pub fn height(&self) -> (r: i64)
        ensures
            r == self.max.y - self.min.y,
    {
        self.max.y as i64 - self.min.y as i64
    }

    /// The area in DBU squared.
    pub fn area(&self) -> (r: i128)
        ensures
            r == (self.max.x - self.min.x) * (self.max.y - self.min.y),
    {
        let w = self.max.x as i128 - self.min.x as i128;
        let h = self.max.y as i128 - self.min.y as i128;
        assert(-0x1_0000_0000_0000_0000int <= w * h <= 0x1_0000_0000_0000_0000int) by (nonlinear_arith)
            requires
                -0xffff_ffff <= w <= 0xffff_ffff,
                -0xffff_ffff <= h <= 0xffff_ffff,
        ;
        w * h
    }

    /// The rectangle grown outward by `m` on every side, saturating at the
    /// DBU range.
    pub open spec fn grown(self, m: int) -> Rect {
        Rect { min: self.min.moved(-m, -m), max: self.max.moved(m, m) }
    }

    /// This rectangle grown outward by `margin` on every side; a coordinate
    /// that would leave the DBU range clamps to its bound.
    pub fn expanded(&self, margin: i32) -> (r: Rect)
        requires
            margin >= 0,
        ensures
            r == self.grown(margin as int),
            self.wf() ==> r.wf(),
    {
        Rect {
            min: Point {
                x: saturating_sub_i32(self.min.x, margin),
                y: saturating_sub_i32(self.min.y, margin),
            },
            max: Point {
                x: saturating_add_i32(self.max.x, margin),
                y: saturating_add_i32(self.max.y, margin),
            },
        }
    }

    /// Whether `self` fully contains `inner` (inclusive on all edges).
    pub fn contains_rect(&self, inner: &Rect) -> (r: bool)
        ensures
            r == (inner.min.x >= self.min.x && inner.min.y >= self.min.y && inner.max.x
                <= self.max.x && inner.max.y <= self.max.y),
    {
        inner.min.x >= self.min.x && inner.min.y >= self.min.y && inner.max.x <= self.max.x
            && inner.max.y <= self.max.y
    }
}

/// What the selection and query logic reads of a drawn shape: its layer and
/// its bounding box.
#[derive(Clone, Copy, PartialEq, Eq, Debug, Structural)]
pub struct ShapeInfo {
    /// The layer the shape is drawn on.
    pub layer: LayerId,
    /// The shape's bounding box.
    pub bbox: Rect,
}

impl ShapeInfo {
    /// A shape on `layer` with bounding box `bbox`.
    pub fn new(layer: LayerId, bbox: Rect) -> (r: ShapeInfo)
        ensures
            r.layer == layer,
            r.bbox == bbox,
    {
        ShapeInfo { layer, bbox }
    }
}

/// How a path's ends are drawn.
#[derive(Clone, Copy, PartialEq, Eq, Debug, Structural)]
pub enum Endcap {
    /// The path stops flush at its end points.
    Flat,
    /// The path ends in a half-width round cap.
    Round,
    /// The path extends half its width past its end points.
    Square,
}

/// A polygon given by its vertices.
#[derive(Clone, PartialEq, Eq, Debug)]
pub struct Polygon {
    vertices: Vec<Point>,
}

impl View for Polygon {
    type V = Seq<Point>;

    closed spec fn view(&self) -> Seq<Point> {
        self.vertices@
    }
}

impl Polygon {
    /// The polygon with `vertices`, in order.
    pub fn new(vertices: Vec<Point>) -> (r: Polygon)
        ensures
            r@ == vertices@,
    {
        Polygon { vertices }
    }

    /// The vertices, in order.
    pub fn vertices(&self) -> (r: &[Point])
        ensures
            r@ == self@,
    {
        self.vertices.as_slice()
    }
}

/// A wire: a center line, a width, and an end style.
#[derive(Clone, PartialEq, Eq, Debug)]
pub struct Path {
    points: Vec<Point>,
    width: i32,
    endcap: Endcap,
}

/// A path as its center line, width and end style.
pub struct PathModel {
    /// The center-line points.
    pub points: Seq<Point>,
    /// The width in DBU.
    pub width: i32,
    /// The end style.
    pub endcap: Endcap,
}

impl View for Path {
    type V = PathModel;

    closed spec fn view(&self) -> PathModel {
        PathModel { points: self.points@, width: self.width, endcap: self.endcap }
    }
}

impl Path {
    /// The path along `points` with the given width and end style.
    pub fn new(points: Vec<Point>, width: i32, endcap: Endcap) -> (r: Path)
        ensures
            r@ == (PathModel { points: points@, width, endcap }),
    {
        Path { points, width, endcap }
    }

    /// The center-line points, in order.
    pub fn points(&self) -> (r: &[Point])
        ensures
            r@ == self@.points,
    {
        self.points.as_slice()
    }

    /// The width in DBU.
    pub fn width(&self) -> (r: i32)
        ensures
            r == self@.width,
    {
        self.width
    }

    /// The end style.
    pub fn endcap(&self) -> (r: Endcap)
        ensures
            r == self@.endcap,
    {
        self.endcap
    }
}

/// The geometry of a drawn shape.
#[derive(Clone, PartialEq, Eq, Debug)]
pub enum ShapeKind {
    /// An axis-aligned rectangle.
    Rect(Rect),
    /// A polygon.
    Polygon(Polygon),
    /// A wire.
    Path(Path),
}

/// A shape's geometry as plain values.
pub enum KindModel {
    /// A rectangle.
    Rect(Rect),
    /// A polygon's vertices.
    Polygon(Seq<Point>),
    /// A path.
    Path(PathModel),
}

impl View for ShapeKind {
    type V = KindModel;

    open spec fn view(&self) -> KindModel {
        match self {
            ShapeKind::Rect(r) => KindModel::Rect(*r),
            ShapeKind::Polygon(p) => KindModel::Polygon(p@),
            ShapeKind::Path(p) => KindModel::Path(p@),
        }
    }
}

/// A drawable shape: geometry on a layer.
#[derive(Clone, PartialEq, Eq, Debug)]
pub struct DrawShape {
    /// The layer the shape is drawn on.
    pub layer: LayerId,
    /// The shape's geometry.
    pub kind: ShapeKind,
}

/// A drawn shape as plain values.
pub struct ShapeModel {
    /// The layer.
    pub layer: LayerId,
    /// The geometry.
    pub kind: KindModel,
}

impl View for DrawShape {
    type V = ShapeModel;

    open spec fn view(&self) -> ShapeModel {
        ShapeModel { layer: self.layer, kind: self.kind@ }
    }
}

impl DrawShape {
    /// The shape `kind` on `layer`.
    pub fn new(layer: LayerId, kind: ShapeKind) -> (r: DrawShape)
        ensures
            r.layer == layer,
            r.kind == kind,
    {
        DrawShape { layer, kind }
    }
}

/// A copy of `points`.
pub fn copy_points(points: &[Point]) -> (r: Vec<Point>)
    ensures
        r@ == points@,
{
    let mut out: Vec<Point> = Vec::new();
    let mut i: usize = 0;
    while i < points.len()
        invariant
            i <= points.len(),
            out@ == points@.subrange(0, i as int),
        decreases points.len() - i,
    {
        out.push(points[i]);
        i = i + 1;
    }
    out
}

/// A copy of `shape`, equal to it in every coordinate.
pub fn copy_shape(shape: &DrawShape) -> (r: DrawShape)
    ensures
        r@ == shape@,
{
    let kind = match &shape.kind {
        ShapeKind::Rect(rect) => ShapeKind::Rect(*rect),
        ShapeKind::Polygon(poly) => ShapeKind::Polygon(Polygon::new(copy_points(poly.vertices()))),
        ShapeKind::Path(path) => ShapeKind::Path(
            Path::new(copy_points(path.points()), path.width(), path.endcap()),
        ),
    };
    DrawShape::new(shape.layer, kind)
}

} // verus!
