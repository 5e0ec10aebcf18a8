//! Coordinates, lines and polygons.
//!
//! The library reads the structure of a geometry and compares coordinates. It
//! never computes a coordinate.
use vstd::prelude::*;

use crate::scalar::Scalar;

verus! {

/// A position: longitude first.
#[derive(Clone, Copy, Debug)]
pub struct Coord {
    pub x: Scalar,
    pub y: Scalar,
}

impl PartialEq for Coord {
    fn eq(&self, other: &Self) -> (r: bool) {
        self.equals(*other)
    }
}

impl vstd::std_specs::cmp::PartialEqSpecImpl for Coord {
    open spec fn obeys_eq_spec() -> bool {
        true
    }

    open spec fn eq_spec(&self, other: &Self) -> bool {
        self.equal(*other)
    }
}

impl Coord {
    /// Numeric equality of both coordinates.
    pub open spec fn equal(self, other: Self) -> bool {
        self.x.equal(other.x) && self.y.equal(other.y)
    }

    /// Both coordinates are numbers.
    pub open spec fn is_number(self) -> bool {
        self.x.is_number() && self.y.is_number()
    }

    /// Numeric equality of both coordinates.
    pub fn equals(self, other: Self) -> (r: bool)
        ensures
            r == self.equal(other),
    {
        self.x.equals(other.x) && self.y.equals(other.y)
    }
}

/// The kinds of geometry that are no lines.
#[derive(Clone, Copy, Debug, PartialEq, Eq, Structural)]
pub enum GeometryKind {
    Point,
    Line,
    Polygon,
    MultiPoint,
    MultiPolygon,
    GeometryCollection,
    Rect,
    Triangle,
}

/// A geometry, as far as the library reads it: the vertices of lines, and the
/// kind of anything else.
#[derive(Debug, PartialEq)]
pub enum Geometry {
    LineString(Vec<Coord>),
    MultiLineString(Vec<Vec<Coord>>),
    Other(GeometryKind),
}

/// What a [`Geometry`] holds.
pub enum Shape {
    Line(Seq<Coord>),
    Lines(Seq<Seq<Coord>>),
    Other(GeometryKind),
}

/// What a list of lines holds.
pub open spec fn lines_view(lines: Seq<Vec<Coord>>) -> Seq<Seq<Coord>> {
    Seq::new(lines.len(), |i: int| lines[i]@)
}

impl View for Geometry {
    type V = Shape;

    open spec fn view(&self) -> Shape {
        match self {
            Geometry::LineString(line) => Shape::Line(line@),
            Geometry::MultiLineString(lines) => Shape::Lines(lines_view(lines@)),
            Geometry::Other(kind) => Shape::Other(*kind),
        }
    }
}

/// A polygon as its rings.
#[derive(Debug, PartialEq)]
pub struct Polygon {
    pub exterior: Vec<Coord>,
    pub interiors: Vec<Vec<Coord>>,
}

/// What a [`Polygon`] holds.
pub struct Rings {
    pub exterior: Seq<Coord>,
    pub interiors: Seq<Seq<Coord>>,
}

impl View for Polygon {
    type V = Rings;

    open spec fn view(&self) -> Rings {
        Rings { exterior: self.exterior@, interiors: lines_view(self.interiors@) }
    }
}

/// Polygons that together make one area.
#[derive(Debug, PartialEq)]
pub struct MultiPolygon {
    pub polygons: Vec<Polygon>,
}

impl View for MultiPolygon {
    type V = Seq<Rings>;

    open spec fn view(&self) -> Seq<Rings> {
        Seq::new(self.polygons@.len(), |i: int| self.polygons@[i]@)
    }
}

/// What a list of shapes holds; a shape is a list of contours, the outer one first.
pub open spec fn shapes_view(shapes: Seq<Vec<Vec<Coord>>>) -> Seq<Seq<Seq<Coord>>> {
    Seq::new(shapes.len(), |i: int| lines_view(shapes[i]@))
}

/// The view of a list of lines grows with the list.
pub proof fn lemma_lines_view_push(lines: Seq<Vec<Coord>>, line: Vec<Coord>)
    ensures
        lines_view(lines.push(line)) == lines_view(lines).push(line@),
{
    assert(lines_view(lines.push(line)) =~= lines_view(lines).push(line@));
}

/// A copy of a line.
pub fn copy_line(line: &Vec<Coord>) -> (r: Vec<Coord>)
    ensures
        r@ == line@,
{
    let r = line.clone();
    assert(r@ =~= line@);
    r
}

/// A copy of a list of lines.
pub fn copy_lines(lines: &Vec<Vec<Coord>>) -> (r: Vec<Vec<Coord>>)
    ensures
        lines_view(r@) == lines_view(lines@),
{
    let mut r: Vec<Vec<Coord>> = Vec::new();
    for i in 0..lines.len()
        invariant
            r@.len() == i,
            lines_view(r@) =~= lines_view(lines@).take(i as int),
    {
        let line = copy_line(&lines[i]);
        proof {
            lemma_lines_view_push(r@, line);
        }
        r.push(line);
    }
    r
}

impl Clone for Geometry {
    fn clone(&self) -> (r: Self)
        ensures
            r@ == self@,
    {
        match self {
            Geometry::LineString(line) => Geometry::LineString(copy_line(line)),
            Geometry::MultiLineString(lines) => Geometry::MultiLineString(copy_lines(lines)),
            Geometry::Other(kind) => Geometry::Other(*kind),
        }
    }
}

impl Clone for Polygon {
    fn clone(&self) -> (r: Self)
        ensures
            r@ == self@,
    {
        Polygon { exterior: copy_line(&self.exterior), interiors: copy_lines(&self.interiors) }
    }
}

impl Clone for MultiPolygon {
    fn clone(&self) -> (r: Self)
        ensures
            r@ == self@,
    {
        let mut result = MultiPolygon { polygons: Vec::new() };
        for i in 0..self.polygons.len()
            invariant
                result@ =~= self@.take(i as int),
        {
            let ghost before = result@;
            let polygon = self.polygons[i].clone();
            result.polygons.push(polygon);
            assert(result@ =~= before.push(polygon@));
        }
        result
    }
}

/// The name of a kind of geometry.
pub open spec fn variant_name(shape: Shape) -> Seq<char> {
    match shape {
        Shape::Line(_) => "LineString"@,
        Shape::Lines(_) => "MultiLineString"@,
        Shape::Other(GeometryKind::Point) => "Point"@,
        Shape::Other(GeometryKind::Line) => "Line"@,
        Shape::Other(GeometryKind::Polygon) => "Polygon"@,
        Shape::Other(GeometryKind::MultiPoint) => "MultiPoint"@,
        Shape::Other(GeometryKind::MultiPolygon) => "MultiPolygon"@,
        Shape::Other(GeometryKind::GeometryCollection) => "GeometryCollection"@,
        Shape::Other(GeometryKind::Rect) => "Rect"@,
        Shape::Other(GeometryKind::Triangle) => "Triangle"@,
    }
}

/// The name of the geometry's kind, for error messages.
pub fn geometry_variant_name(geometry: &Geometry) -> (r: &'static str)
    ensures
        r@ == variant_name(geometry@),
{
    match geometry {
        Geometry::LineString(_) => "LineString",
        Geometry::MultiLineString(_) => "MultiLineString",
        Geometry::Other(GeometryKind::Point) => "Point",
        Geometry::Other(GeometryKind::Line) => "Line",
        Geometry::Other(GeometryKind::Polygon) => "Polygon",
        Geometry::Other(GeometryKind::MultiPoint) => "MultiPoint",
        Geometry::Other(GeometryKind::MultiPolygon) => "MultiPolygon",
        Geometry::Other(GeometryKind::GeometryCollection) => "GeometryCollection",
        Geometry::Other(GeometryKind::Rect) => "Rect",
        Geometry::Other(GeometryKind::Triangle) => "Triangle",
    }
}

// ---- rings ----

/// A ring that ends where it starts.
pub open spec fn closed(ring: Seq<Coord>) -> Seq<Coord> {
    if ring.len() > 0 && !ring.first().equal(ring.last()) {
        ring.push(ring.first())
    } else {
        ring
    }
}

/// A contour: a ring without the vertex that repeats its start.
pub open spec fn opened(ring: Seq<Coord>) -> Seq<Coord> {
    if ring.len() > 1 && ring.first().equal(ring.last()) {
        ring.drop_last()
    } else {
        ring
    }
}

/// The ring of a contour: closed, and closed once more where its start is no
/// number and so repeats nothing.
pub open spec fn ring_of(contour: Seq<Coord>) -> Seq<Coord> {
    closed(closed(contour))
}

/// The contours of a polygon, the outer one first.
pub open spec fn contours_of(rings: Rings) -> Seq<Seq<Coord>> {
    seq![opened(rings.exterior)] + rings.interiors.map_values(|ring: Seq<Coord>| opened(ring))
}

/// The shapes of a multi-polygon, one for each polygon.
pub open spec fn shapes_of(polygons: Seq<Rings>) -> Seq<Seq<Seq<Coord>>> {
    polygons.map_values(|rings: Rings| contours_of(rings))
}

/// A contour with an area: at least three vertices.
pub open spec fn is_contour(contour: Seq<Coord>) -> bool {
    contour.len() >= 3
}

/// A shape with an outer contour.
pub open spec fn is_shape(shape: Seq<Seq<Coord>>) -> bool {
    shape.len() > 0 && is_contour(shape[0])
}

/// The polygon of a shape: the ring of its outer contour, and those of its holes
/// as far as they have an area.
pub open spec fn rings_of(shape: Seq<Seq<Coord>>) -> Rings {
    Rings {
        exterior: ring_of(shape[0]),
        interiors: shape.skip(1).filter(|contour: Seq<Coord>| is_contour(contour)).map_values(
            |contour: Seq<Coord>| ring_of(contour),
        ),
    }
}

/// The polygons of those shapes that have an outer contour.
pub open spec fn polygons_of(shapes: Seq<Seq<Seq<Coord>>>) -> Seq<Rings> {
    shapes.filter(|shape: Seq<Seq<Coord>>| is_shape(shape)).map_values(
        |shape: Seq<Seq<Coord>>| rings_of(shape),
    )
}

/// Filtering one more element keeps it or drops it.
pub proof fn lemma_filter_push<A>(s: Seq<A>, a: A, p: spec_fn(A) -> bool)
    ensures
        s.push(a).filter(p) == if p(a) {
            s.filter(p).push(a)
        } else {
            s.filter(p)
        },
{
    reveal(Seq::filter);
    assert(s.push(a).drop_last() =~= s);
}

pub proof fn lemma_filter_empty<A>(p: spec_fn(A) -> bool)
    ensures
        Seq::<A>::empty().filter(p) == Seq::<A>::empty(),
{
    reveal(Seq::filter);
}

/// The lines that have a vertex.
pub open spec fn without_empty(lines: Seq<Seq<Coord>>) -> Seq<Seq<Coord>> {
    lines.filter(|line: Seq<Coord>| line.len() > 0)
}

pub proof fn lemma_without_empty_start()
    ensures
        without_empty(Seq::empty()) == Seq::<Seq<Coord>>::empty(),
{
    lemma_filter_empty(|line: Seq<Coord>| line.len() > 0);
}

pub proof fn lemma_without_empty_push(lines: Seq<Seq<Coord>>, line: Seq<Coord>)
    ensures
        without_empty(lines.push(line)) == if line.len() > 0 {
            without_empty(lines).push(line)
        } else {
            without_empty(lines)
        },
{
    lemma_filter_push(lines, line, |line: Seq<Coord>| line.len() > 0);
}

fn close_ring(contour: &Vec<Coord>) -> (r: Vec<Coord>)
    ensures
        r@ == closed(contour@),
{
    let mut ring = copy_line(contour);
    if ring.len() > 0 && !ring[0].equals(ring[ring.len() - 1]) {
        let first = ring[0];
        ring.push(first);
    }
    ring
}

fn open_ring(ring: &Vec<Coord>) -> (r: Vec<Coord>)
    ensures
        r@ == opened(ring@),
{
    let mut contour = copy_line(ring);
    if contour.len() > 1 && contour[0].equals(contour[contour.len() - 1]) {
        contour.pop();
        assert(contour@ =~= ring@.drop_last());
    }
    contour
}

fn polygon_to_shape(polygon: &Polygon) -> (r: Vec<Vec<Coord>>)
    ensures
        lines_view(r@) == contours_of(polygon@),
{
    let mut contours: Vec<Vec<Coord>> = Vec::new();
    let exterior = open_ring(&polygon.exterior);
    contours.push(exterior);
    for i in 0..polygon.interiors.len()
        invariant
            contours@.len() == i + 1,
            lines_view(contours@) =~= contours_of(polygon@).take(i + 1),
    {
        let hole = open_ring(&polygon.interiors[i]);
        contours.push(hole);
        assert(contours_of(polygon@)[i + 1] == opened(polygon.interiors@[i as int]@));
    }
    contours
}

/// The polygons as shapes for an overlay: contours without the vertex that
/// repeats their start, the outer one first.
pub fn multipolygon_to_shapes(polygons: &MultiPolygon) -> (r: Vec<Vec<Vec<Coord>>>)
    ensures
        shapes_view(r@) == shapes_of(polygons@),
{
    let mut shapes: Vec<Vec<Vec<Coord>>> = Vec::new();
    for i in 0..polygons.polygons.len()
        invariant
            shapes@.len() == i,
            shapes_view(shapes@) =~= shapes_of(polygons@).take(i as int),
    {
        let shape = polygon_to_shape(&polygons.polygons[i]);
        shapes.push(shape);
        assert(shapes_of(polygons@)[i as int] == contours_of(polygons.polygons@[i as int]@));
    }
    shapes
}

fn shape_to_polygon(shape: &Vec<Vec<Coord>>) -> (r: Polygon)
    requires
        is_shape(lines_view(shape@)),
    ensures
        r@ == rings_of(lines_view(shape@)),
{
    let ghost contours = lines_view(shape@);
    let ghost p = |contour: Seq<Coord>| is_contour(contour);
    let ghost f = |contour: Seq<Coord>| ring_of(contour);
    let exterior = close_ring(&close_ring(&shape[0]));
    let mut interiors: Vec<Vec<Coord>> = Vec::new();
    proof {
        lemma_filter_empty(p);
        assert(contours.subrange(1, 1) =~= Seq::<Seq<Coord>>::empty());
    }
    for i in 1..shape.len()
        invariant
            contours == lines_view(shape@),
            contours.len() > 0,
            p == (|contour: Seq<Coord>| is_contour(contour)),
            f == (|contour: Seq<Coord>| ring_of(contour)),
            lines_view(interiors@) =~= contours.subrange(1, i as int).filter(p).map_values(f),
    {
        proof {
            assert(contours.subrange(1, i + 1) =~= contours.subrange(1, i as int).push(
                contours[i as int],
            ));
            lemma_filter_push(contours.subrange(1, i as int), contours[i as int], p);
        }
        if shape[i].len() >= 3 {
            let ring = close_ring(&close_ring(&shape[i]));
            proof {
                lemma_lines_view_push(interiors@, ring);
            }
            interiors.push(ring);
            assert(f(contours[i as int]) == ring_of(shape@[i as int]@));
        }
    }
    assert(contours.subrange(1, contours.len() as int) =~= contours.skip(1));
    Polygon { exterior, interiors }
}

/// The polygons of overlay shapes: contours closed to rings, and shapes and holes without an
/// area left out.
pub fn shapes_to_multipolygon(shapes: &Vec<Vec<Vec<Coord>>>) -> (r: MultiPolygon)
    ensures
        r@ == polygons_of(shapes_view(shapes@)),
{
    let ghost all = shapes_view(shapes@);
    let ghost p = |shape: Seq<Seq<Coord>>| is_shape(shape);
    let ghost f = |shape: Seq<Seq<Coord>>| rings_of(shape);
    let mut result = MultiPolygon { polygons: Vec::new() };
    proof {
        lemma_filter_empty(p);
        assert(all.take(0) =~= Seq::<Seq<Seq<Coord>>>::empty());
    }
    for i in 0..shapes.len()
        invariant
            all == shapes_view(shapes@),
            p == (|shape: Seq<Seq<Coord>>| is_shape(shape)),
            f == (|shape: Seq<Seq<Coord>>| rings_of(shape)),
            result@ =~= all.take(i as int).filter(p).map_values(f),
    {
        proof {
            assert(all.take(i + 1) =~= all.take(i as int).push(all[i as int]));
            lemma_filter_push(all.take(i as int), all[i as int], p);
        }
        if shapes[i].len() > 0 && shapes[i][0].len() >= 3 {
            let polygon = shape_to_polygon(&shapes[i]);
            let ghost before = result@;
            result.polygons.push(polygon);
            assert(result@ =~= before.push(polygon@));
        }
    }
    assert(all.take(all.len() as int) =~= all);
    result
}

// ---- laws ----

/// A contour that an overlay can take: at least three vertices, the first of them
/// a number, and the last one not a repetition of it.
pub open spec fn is_open_contour(contour: Seq<Coord>) -> bool {
    &&& contour.len() >= 3
    &&& contour.first().is_number()
    &&& !contour.first().equal(contour.last())
}

/// A contour that starts with a number is closed by closing it once.
pub proof fn law_closing_settles(contour: Seq<Coord>)
    requires
        contour.len() > 0,
        contour.first().is_number(),
    ensures
        ring_of(contour) == closed(contour),
{
}

/// Closing an open contour and opening it again gives it back.
pub proof fn law_opening_undoes_closing(contour: Seq<Coord>)
    requires
        is_open_contour(contour),
    ensures
        opened(closed(contour)) == contour,
        closed(contour).first().equal(closed(contour).last()),
{
    assert(contour.push(contour.first()).drop_last() =~= contour);
}

/// Opening a closed ring and closing it again gives it back, unless the ring
/// repeats its start in its last vertex but one too.
pub proof fn law_closing_undoes_opening(ring: Seq<Coord>)
    requires
        ring.len() >= 2,
        ring.first() == ring.last(),
        ring.first().is_number(),
        !ring.first().equal(ring[ring.len() - 2]),
    ensures
        closed(opened(ring)) == ring,
{
    assert(opened(ring) == ring.drop_last());
    assert(ring.drop_last().last() == ring[ring.len() - 2]);
    assert(ring.drop_last().push(ring.first()) =~= ring);
}

/// A filter that every element passes keeps the sequence.
pub proof fn lemma_filter_all<A>(s: Seq<A>, p: spec_fn(A) -> bool)
    requires
        forall|i: int| 0 <= i < s.len() ==> p(#[trigger] s[i]),
    ensures
        s.filter(p) == s,
    decreases s.len(),
{
    reveal(Seq::filter);
    if s.len() > 0 {
        lemma_filter_all(s.drop_last(), p);
        assert(s.drop_last().push(s.last()) =~= s);
    } else {
        assert(s.filter(p) =~= s);
    }
}

/// Shapes of open contours survive the way to polygons and back.
pub proof fn law_shapes_round_trip(shapes: Seq<Seq<Seq<Coord>>>)
    requires
        forall|i: int| 0 <= i < shapes.len() ==> (#[trigger] shapes[i]).len() > 0,
        forall|i: int, j: int|
            0 <= i < shapes.len() && 0 <= j < shapes[i].len() ==> is_open_contour(
                #[trigger] shapes[i][j],
            ),
    ensures
        shapes_of(polygons_of(shapes)) == shapes,
{
    let p = |shape: Seq<Seq<Coord>>| is_shape(shape);
    let q = |contour: Seq<Coord>| is_contour(contour);
    assert forall|i: int| 0 <= i < shapes.len() implies p(#[trigger] shapes[i]) by {
        assert(is_open_contour(shapes[i][0]));
    }
    lemma_filter_all(shapes, p);
    assert forall|i: int| 0 <= i < shapes.len() implies shapes_of(
        polygons_of(shapes),
    )[i] == #[trigger] shapes[i] by {
        let shape = shapes[i];
        let holes = shape.skip(1);
        assert forall|j: int| 0 <= j < holes.len() implies q(#[trigger] holes[j]) by {
            assert(is_open_contour(shapes[i][j + 1]));
        }
        lemma_filter_all(holes, q);
        assert(contours_of(rings_of(shape)) =~= shape) by {
            assert forall|j: int| 0 <= j < shape.len() implies contours_of(rings_of(shape))[j]
                == #[trigger] shape[j] by {
                assert(is_open_contour(shapes[i][j]));
                law_opening_undoes_closing(shape[j]);
                law_closing_settles(shape[j]);
                if j > 0 {
                    assert(holes[j - 1] == shape[j]);
                }
            }
        }
    }
    assert(shapes_of(polygons_of(shapes)) =~= shapes);
}

// ---- what rings and shapes keep ----

/// Closing a ring adds at most its first vertex at its end. It adds none to a ring
/// that is closed, and a ring that starts with a number is closed afterwards.
pub proof fn law_closing_repeats_the_start(ring: Seq<Coord>)
    requires
        ring.len() > 0,
    ensures
        closed(ring) == ring || closed(ring) == ring.push(ring[0]),
        ring[0].equal(ring[ring.len() - 1]) ==> closed(ring) == ring,
        ring[0].is_number() ==> closed(ring)[0].equal(closed(ring)[closed(ring).len() - 1]),
        !ring[0].is_number() ==> closed(ring) == ring.push(ring[0]),
{
}

/// Opening a ring drops at most its last vertex, and only one that repeats the
/// first; a ring of more than one vertex that ends as it begins loses it.
pub proof fn law_opening_drops_the_repetition(ring: Seq<Coord>)
    ensures
        opened(ring) == ring || (ring.len() > 1 && opened(ring) == ring.take(ring.len() - 1)),
        ring.len() > 1 && ring[0].equal(ring[ring.len() - 1]) ==> opened(ring) == ring.take(
            ring.len() - 1,
        ),
        ring.len() > 1 && !ring[0].equal(ring[ring.len() - 1]) ==> opened(ring) == ring,
        ring.len() <= 1 ==> opened(ring) == ring,
{
    if ring.len() > 1 {
        assert(ring.drop_last() =~= ring.take(ring.len() - 1));
    }
}

/// A position equals another where both coordinates do.
pub proof fn law_positions_are_equal_by_coordinate(a: Coord, b: Coord)
    ensures
        a.equal(b) <==> a.x.equal(b.x) && a.y.equal(b.y),
        a.is_number() <==> a.x.is_number() && a.y.is_number(),
{
}

/// Every polygon has its shape, and every ring its contour there, the exterior
/// first and the holes after it in order.
pub proof fn law_every_ring_has_its_contour(polygons: Seq<Rings>, i: int)
    requires
        0 <= i < polygons.len(),
    ensures
        shapes_of(polygons).len() == polygons.len(),
        shapes_of(polygons)[i].len() == 1 + polygons[i].interiors.len(),
        shapes_of(polygons)[i][0] == opened(polygons[i].exterior),
        forall|j: int|
            0 <= j < polygons[i].interiors.len() ==> shapes_of(polygons)[i][j + 1] == opened(
                #[trigger] polygons[i].interiors[j],
            ),
{
}

/// Shapes become polygons one after another, each by itself.
pub proof fn law_shapes_become_polygons_one_by_one(
    shapes: Seq<Seq<Seq<Coord>>>,
    shape: Seq<Seq<Coord>>,
)
    ensures
        polygons_of(Seq::empty()).len() == 0,
        shape.len() == 0 || shape[0].len() < 3 ==> polygons_of(shapes.push(shape)) == polygons_of(
            shapes,
        ),
        shape.len() > 0 && shape[0].len() >= 3 ==> {
            let polygons = polygons_of(shapes.push(shape));
            &&& polygons.len() == polygons_of(shapes).len() + 1
            &&& polygons.drop_last() == polygons_of(shapes)
            &&& polygons.last().exterior == closed(closed(shape[0]))
        },
{
    let p = |shape: Seq<Seq<Coord>>| is_shape(shape);
    let f = |shape: Seq<Seq<Coord>>| rings_of(shape);
    lemma_filter_empty(p);
    lemma_filter_push(shapes, shape, p);
    if shape.len() > 0 && shape[0].len() >= 3 {
        assert(p(shape));
        assert(shapes.filter(p).push(shape).map_values(f) =~= shapes.filter(p).map_values(f).push(
            rings_of(shape),
        ));
        assert(polygons_of(shapes.push(shape)).drop_last() =~= polygons_of(shapes));
    } else {
        assert(!p(shape));
    }
}

/// The holes of a polygon are those of its shape that have at least three vertices,
/// one after another.
pub proof fn law_holes_are_closed_one_by_one(shape: Seq<Seq<Coord>>, hole: Seq<Coord>)
    requires
        shape.len() > 0,
    ensures
        shape.len() == 1 ==> rings_of(shape).interiors.len() == 0,
        hole.len() < 3 ==> rings_of(shape.push(hole)).interiors == rings_of(shape).interiors,
        hole.len() >= 3 ==> rings_of(shape.push(hole)).interiors == rings_of(shape).interiors.push(
            closed(closed(hole)),
        ),
        rings_of(shape.push(hole)).exterior == rings_of(shape).exterior,
{
    let p = |contour: Seq<Coord>| is_contour(contour);
    let f = |contour: Seq<Coord>| ring_of(contour);
    let holes = shape.skip(1);
    lemma_filter_empty(p);
    if shape.len() == 1 {
        assert(holes =~= Seq::<Seq<Coord>>::empty());
    }
    assert(shape.push(hole).skip(1) =~= holes.push(hole));
    lemma_filter_push(holes, hole, p);
    if hole.len() >= 3 {
        assert(p(hole));
        assert(holes.filter(p).push(hole).map_values(f) =~= holes.filter(p).map_values(f).push(
            ring_of(hole),
        ));
    } else {
        assert(!p(hole));
    }
}

/// Leaving out lines without a vertex keeps all other lines, in order.
pub proof fn law_lines_with_a_vertex_stay(lines: Seq<Seq<Coord>>, line: Seq<Coord>)
    ensures
        without_empty(Seq::empty()).len() == 0,
        line.len() == 0 ==> without_empty(lines.push(line)) == without_empty(lines),
        line.len() > 0 ==> without_empty(lines.push(line)) == without_empty(lines).push(line),
{
    lemma_without_empty_start();
    lemma_without_empty_push(lines, line);
}

/// The kind of a geometry is told by its name: two geometries have the same name
/// exactly where they are of the same kind, and several of a kind are named after it.
pub proof fn law_kind_is_told_by_its_name(
    a: GeometryKind,
    b: GeometryKind,
    line: Seq<Coord>,
    lines: Seq<Seq<Coord>>,
)
    ensures
        variant_name(Shape::Other(a)) == variant_name(Shape::Other(b)) <==> a == b,
        variant_name(Shape::Other(a)) != variant_name(Shape::Line(line)),
        variant_name(Shape::Other(a)) != variant_name(Shape::Lines(lines)),
        variant_name(Shape::Line(line)) == "LineString"@,
        variant_name(Shape::Lines(lines)) == "Multi"@ + variant_name(Shape::Line(line)),
        variant_name(Shape::Other(GeometryKind::MultiPoint)) == "Multi"@ + variant_name(
            Shape::Other(GeometryKind::Point),
        ),
        variant_name(Shape::Other(GeometryKind::MultiPolygon)) == "Multi"@ + variant_name(
            Shape::Other(GeometryKind::Polygon),
        ),
{
    reveal_strlit("Multi");
    reveal_strlit("LineString");
    reveal_strlit("MultiLineString");
    reveal_strlit("Point");
    reveal_strlit("Line");
    reveal_strlit("Polygon");
    reveal_strlit("MultiPoint");
    reveal_strlit("MultiPolygon");
    reveal_strlit("GeometryCollection");
    reveal_strlit("Rect");
    reveal_strlit("Triangle");
    assert("LineString"@.len() == 10 && "LineString"@[0] == 'L');
    assert("MultiPoint"@.len() == 10 && "MultiPoint"@[0] == 'M');
    assert("Line"@.len() == 4 && "Line"@[0] == 'L');
    assert("Rect"@.len() == 4 && "Rect"@[0] == 'R');
    assert("MultiLineString"@.len() == 15);
    assert("Point"@.len() == 5);
    assert("Polygon"@.len() == 7);
    assert("MultiPolygon"@.len() == 12);
    assert("GeometryCollection"@.len() == 18);
    assert("Triangle"@.len() == 8);
    assert("MultiLineString"@ =~= "Multi"@ + "LineString"@);
    assert("MultiPoint"@ =~= "Multi"@ + "Point"@);
    assert("MultiPolygon"@ =~= "Multi"@ + "Polygon"@);
}

} // verus!
