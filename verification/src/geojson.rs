//! What a result shows: the watershed and its reaches, as GeoJSON geometries.
//!
//! Coordinates are rounded by the caller, as `round` says.
use vstd::prelude::*;

use crate::clip::clip_reach_geometry;
use crate::clip::is_clipped;
use crate::fabric::SnapId;
use crate::fabric::StemRole;
use crate::fabric::UnitId;
use crate::geometry::copy_line;
use crate::geometry::lemma_lines_view_push;
use crate::geometry::lemma_without_empty_push;
use crate::geometry::lemma_without_empty_start;
use crate::geometry::lines_view;
use crate::geometry::multipolygon_to_shapes;
use crate::geometry::shapes_of;
use crate::geometry::shapes_view;
use crate::geometry::without_empty;
use crate::geometry::Coord;
use crate::geometry::Geometry;
use crate::geometry::MultiPolygon;
use crate::geometry::Rings;
use crate::geometry::Shape;
use crate::network::ReachRecord;
use crate::network::UpstreamReaches;
use crate::outlet::find_terminal_reach;
use crate::outlet::geometries_but;
use crate::outlet::has_no_reach;
use crate::outlet::is_terminal_reach;
use crate::outlet::other_reaches;
use crate::scalar::Scalar;
use crate::truncate::is_truncated_reach;
use crate::truncate::lines_of;
use crate::truncate::truncate_terminal_reach;

verus! {

// ---- rounding ----

/// `result` is `ring`, each coordinate rounded.
pub open spec fn is_rounded<R>(round: R, ring: Seq<Coord>, result: Seq<Coord>) -> bool where
    R: Fn(Scalar) -> Scalar,
 {
    &&& result.len() == ring.len()
    &&& forall|i: int|
        0 <= i < ring.len() ==> call_ensures(round, (ring[i].x,), (#[trigger] result[i]).x)
            && call_ensures(round, (ring[i].y,), result[i].y)
}

/// `result` is `rings`, each coordinate rounded.
pub open spec fn are_rounded<R>(
    round: R,
    rings: Seq<Seq<Coord>>,
    result: Seq<Seq<Coord>>,
) -> bool where R: Fn(Scalar) -> Scalar {
    &&& result.len() == rings.len()
    &&& forall|i: int| 0 <= i < rings.len() ==> is_rounded(round, rings[i], #[trigger] result[i])
}

/// The positions of a ring or a line.
pub fn ring_json<R>(ring: &Vec<Coord>, round: &R) -> (r: Vec<Coord>) where
    R: Fn(Scalar) -> Scalar,

    requires
        forall|s: Scalar| call_requires(round, (s,)),
    ensures
        is_rounded(*round, ring@, r@),
{
    let mut positions: Vec<Coord> = Vec::new();
    for i in 0..ring.len()
        invariant
            forall|s: Scalar| call_requires(round, (s,)),
            positions@.len() == i,
            forall|k: int|
                0 <= k < i ==> call_ensures(round, (ring@[k].x,), (#[trigger] positions@[k]).x)
                    && call_ensures(round, (ring@[k].y,), positions@[k].y),
    {
        let x = round(ring[i].x);
        let y = round(ring[i].y);
        positions.push(Coord { x, y });
    }
    positions
}

fn rings_json<R>(rings: &Vec<Vec<Coord>>, round: &R) -> (r: Vec<Vec<Coord>>) where
    R: Fn(Scalar) -> Scalar,

    requires
        forall|s: Scalar| call_requires(round, (s,)),
    ensures
        are_rounded(*round, lines_view(rings@), lines_view(r@)),
{
    let mut result: Vec<Vec<Coord>> = Vec::new();
    for i in 0..rings.len()
        invariant
            forall|s: Scalar| call_requires(round, (s,)),
            result@.len() == i,
            forall|k: int|
                0 <= k < i ==> is_rounded(*round, rings@[k]@, (#[trigger] result@[k])@),
    {
        let ring = ring_json(&rings[i], round);
        result.push(ring);
    }
    assert forall|k: int| 0 <= k < rings@.len() implies is_rounded(
        *round,
        lines_view(rings@)[k],
        #[trigger] lines_view(result@)[k],
    ) by {
        assert(is_rounded(*round, rings@[k]@, result@[k]@));
    }
    result
}

// ---- the watershed ----

/// The rings of each polygon, the outer one first.
pub open spec fn rings_of_polygons(polygons: Seq<Rings>) -> Seq<Seq<Seq<Coord>>> {
    polygons.map_values(|rings: Rings| seq![rings.exterior] + rings.interiors)
}

/// The coordinates of the watershed.
pub fn multipolygon_json<R>(polygons: &MultiPolygon, round: &R) -> (r: Vec<Vec<Vec<Coord>>>) where
    R: Fn(Scalar) -> Scalar,

    requires
        forall|s: Scalar| call_requires(round, (s,)),
    ensures
        r@.len() == polygons@.len(),
        forall|i: int|
            0 <= i < r@.len() ==> are_rounded(
                *round,
                rings_of_polygons(polygons@)[i],
                lines_view((#[trigger] r@[i])@),
            ),
{
    let mut result: Vec<Vec<Vec<Coord>>> = Vec::new();
    for i in 0..polygons.polygons.len()
        invariant
            forall|s: Scalar| call_requires(round, (s,)),
            result@.len() == i,
            forall|k: int|
                0 <= k < i ==> are_rounded(
                    *round,
                    rings_of_polygons(polygons@)[k],
                    lines_view((#[trigger] result@[k])@),
                ),
    {
        let polygon = &polygons.polygons[i];
        let exterior = ring_json(&polygon.exterior, round);
        let mut interiors = rings_json(&polygon.interiors, round);
        let mut rings: Vec<Vec<Coord>> = Vec::new();
        let ghost holes = lines_view(interiors@);
        rings.push(exterior);
        assert(lines_view(rings@) =~= seq![exterior@]);
        let ghost first = rings@;
        let ghost rest = interiors@;
        rings.append(&mut interiors);
        assert(rings@ =~= first + rest);
        proof {
            let all = rings_of_polygons(polygons@)[i as int];
            assert(all == seq![polygon.exterior@] + lines_view(polygon.interiors@));
            assert(lines_view(rings@) =~= seq![exterior@] + holes);
            assert forall|k: int| 0 <= k < all.len() implies is_rounded(
                *round,
                all[k],
                #[trigger] lines_view(rings@)[k],
            ) by {
                if k > 0 {
                    assert(is_rounded(
                        *round,
                        lines_view(polygon.interiors@)[k - 1],
                        holes[k - 1],
                    ));
                }
            }
        }
        result.push(rings);
    }
    result
}

/// The tolerance with which the boundary is simplified for display: zero, so that
/// the boundary is the true divide and no reach protrudes from it.
pub fn display_tolerance(area_km2: Scalar) -> (r: Scalar)
    ensures
        r == (Scalar { bits: 0 }),
{
    Scalar::zero()
}

/// The watershed as it is displayed: with its full boundary.
///
/// `simplify` would simplify it to a tolerance.
pub fn display_watershed<F>(area_km2: Scalar, watershed: &MultiPolygon, simplify: &F) -> (r:
    MultiPolygon) where F: Fn(&MultiPolygon, Scalar) -> MultiPolygon
    requires
        forall|w: &MultiPolygon, t: Scalar| call_requires(simplify, (w, t)),
    ensures
        r@ == watershed@,
{
    let tolerance = display_tolerance(area_km2);
    if Scalar::zero().lt(tolerance) {
        simplify(watershed, tolerance)
    } else {
        watershed.clone()
    }
}

// ---- lines ----

/// A line geometry that can be drawn.
#[derive(Debug)]
pub enum LineGeometry {
    LineString(Vec<Coord>),
    MultiLineString(Vec<Vec<Coord>>),
}

/// What a [`LineGeometry`] holds.
pub enum Drawn {
    Line(Seq<Coord>),
    Lines(Seq<Seq<Coord>>),
}

impl View for LineGeometry {
    type V = Drawn;

    open spec fn view(&self) -> Drawn {
        match self {
            LineGeometry::LineString(line) => Drawn::Line(line@),
            LineGeometry::MultiLineString(lines) => Drawn::Lines(lines_view(lines@)),
        }
    }
}

/// What is drawn of a reach: its lines that have a vertex, if there are any.
pub open spec fn drawn(shape: Shape) -> Option<Drawn> {
    match shape {
        Shape::Line(line) => if line.len() == 0 {
            None
        } else {
            Some(Drawn::Line(line))
        },
        Shape::Lines(lines) => {
            let kept = without_empty(lines);
            if kept.len() == 0 {
                None
            } else if kept.len() == 1 {
                Some(Drawn::Line(kept[0]))
            } else {
                Some(Drawn::Lines(kept))
            }
        },
        Shape::Other(_) => None,
    }
}

/// What is drawn has a vertex, and each of several lines has one.
pub proof fn law_drawn_lines_have_a_vertex(shape: Shape)
    ensures
        match drawn(shape) {
            Some(Drawn::Line(line)) => line.len() > 0,
            Some(Drawn::Lines(lines)) => lines.len() > 1 && forall|i: int|
                0 <= i < lines.len() ==> (#[trigger] lines[i]).len() > 0,
            None => true,
        },
{
    if let Shape::Lines(lines) = shape {
        lemma_without_empty_have_vertices(lines);
    }
}

proof fn lemma_without_empty_have_vertices(lines: Seq<Seq<Coord>>)
    ensures
        forall|i: int|
            0 <= i < without_empty(lines).len() ==> (#[trigger] without_empty(lines)[i]).len() > 0,
    decreases lines.len(),
{
    if lines.len() == 0 {
        lemma_without_empty_start();
        assert(lines =~= Seq::<Seq<Coord>>::empty());
    } else {
        let rest = lines.drop_last();
        lemma_without_empty_have_vertices(rest);
        lemma_without_empty_push(rest, lines.last());
        assert(rest.push(lines.last()) =~= lines);
    }
}

/// `result` is `geometry`, each coordinate rounded.
pub open spec fn is_rounded_geometry<R>(round: R, geometry: Drawn, result: Drawn) -> bool where
    R: Fn(Scalar) -> Scalar,
 {
    match (geometry, result) {
        (Drawn::Line(line), Drawn::Line(rounded)) => is_rounded(round, line, rounded),
        (Drawn::Lines(lines), Drawn::Lines(rounded)) => are_rounded(round, lines, rounded),
        _ => false,
    }
}

/// `result` is what is drawn of `shape`, rounded.
pub open spec fn is_line_json<R>(round: R, shape: Shape, result: Option<LineGeometry>) -> bool where
    R: Fn(Scalar) -> Scalar,
 {
    match (drawn(shape), result) {
        (Some(geometry), Some(rounded)) => is_rounded_geometry(round, geometry, rounded@),
        (None, None) => true,
        _ => false,
    }
}

/// The geometry of a reach; none where there is no line to draw.
pub fn line_json<R>(geometry: &Geometry, round: &R) -> (r: Option<LineGeometry>) where
    R: Fn(Scalar) -> Scalar,

    requires
        forall|s: Scalar| call_requires(round, (s,)),
    ensures
        is_line_json(*round, geometry@, r),
{
    match geometry {
        Geometry::LineString(line) => {
            if line.len() == 0 {
                None
            } else {
                Some(LineGeometry::LineString(ring_json(line, round)))
            }
        },
        Geometry::MultiLineString(lines) => {
            let ghost all = lines_view(lines@);
            let mut kept: Vec<Vec<Coord>> = Vec::new();
            proof {
                lemma_without_empty_start();
                assert(all.take(0) =~= Seq::<Seq<Coord>>::empty());
                assert(lines_view(kept@) =~= Seq::<Seq<Coord>>::empty());
            }
            for i in 0..lines.len()
                invariant
                    all == lines_view(lines@),
                    lines_view(kept@) == without_empty(all.take(i as int)),
            {
                proof {
                    assert(all.take(i + 1) =~= all.take(i as int).push(all[i as int]));
                    lemma_without_empty_push(all.take(i as int), all[i as int]);
                }
                if lines[i].len() > 0 {
                    let line = copy_line(&lines[i]);
                    proof {
                        lemma_lines_view_push(kept@, line);
                    }
                    kept.push(line);
                }
            }
            assert(all.take(all.len() as int) =~= all);
            assert(kept@.len() == lines_view(kept@).len());
            if kept.len() == 0 {
                None
            } else if kept.len() == 1 {
                assert(lines_view(kept@)[0] == kept@[0]@);
                Some(LineGeometry::LineString(ring_json(&kept[0], round)))
            } else {
                Some(LineGeometry::MultiLineString(rings_json(&kept, round)))
            }
        },
        Geometry::Other(_) => None,
    }
}

// ---- reaches ----

/// A reach as it is shown.
#[derive(Debug)]
pub struct ReachFeature {
    pub unit_id: UnitId,
    pub snap_id: SnapId,
    pub stem_role: Option<String>,
    pub length_km: Scalar,
    pub geometry: LineGeometry,
}

/// `feature` shows `reach`, drawn as `shape`.
pub open spec fn is_feature<R>(
    round: R,
    reach: ReachRecord,
    shape: Shape,
    feature: ReachFeature,
) -> bool where R: Fn(Scalar) -> Scalar {
    &&& feature.unit_id == reach.unit_id
    &&& feature.snap_id == reach.snap_id
    &&& match (reach.stem_role, feature.stem_role) {
        (Some(role), Some(name)) => name@ == role.spec_name(),
        (None, None) => true,
        _ => false,
    }
    &&& feature.length_km == reach.length.km
    &&& is_line_json(round, shape, Some(feature.geometry))
}

/// The indices of the shapes of which something is drawn, in order.
pub open spec fn drawn_indices(shapes: Seq<Shape>) -> Seq<int>
    decreases shapes.len(),
{
    if shapes.len() == 0 {
        Seq::empty()
    } else {
        let before = drawn_indices(shapes.drop_last());
        if drawn(shapes.last()) is Some {
            before.push(shapes.len() - 1)
        } else {
            before
        }
    }
}

/// `features` show the reaches of which something is drawn, each as its shape.
pub open spec fn are_features<R>(
    round: R,
    reaches: Seq<ReachRecord>,
    shapes: Seq<Shape>,
    features: Seq<ReachFeature>,
) -> bool where R: Fn(Scalar) -> Scalar {
    &&& features.len() == drawn_indices(shapes).len()
    &&& forall|k: int|
        0 <= k < features.len() ==> is_feature(
            round,
            reaches[drawn_indices(shapes)[k]],
            shapes[drawn_indices(shapes)[k]],
            #[trigger] features[k],
        )
}

/// The shapes in which reaches are drawn: the terminal one cut, the others as
/// they are.
pub open spec fn shown(
    reaches: Seq<ReachRecord>,
    terminal: Option<usize>,
    cut: Shape,
) -> Seq<Shape> {
    reaches.map(
        |i: int, reach: ReachRecord|
            if terminal matches Some(t) && t == i {
                cut
            } else {
                reach.geometry
            },
    )
}

proof fn lemma_drawn_indices(shapes: Seq<Shape>, k: int)
    requires
        0 <= k < drawn_indices(shapes).len(),
    ensures
        0 <= drawn_indices(shapes)[k] < shapes.len(),
        drawn(shapes[drawn_indices(shapes)[k]]) is Some,
    decreases shapes.len(),
{
    let rest = shapes.drop_last();
    if k < drawn_indices(rest).len() {
        lemma_drawn_indices(rest, k);
        assert(rest[drawn_indices(rest)[k]] == shapes[drawn_indices(rest)[k]]);
    }
}

/// Every reach with a line to draw is shown, and no other.
pub proof fn law_every_drawable_reach_is_shown(shapes: Seq<Shape>, i: int)
    requires
        0 <= i < shapes.len(),
    ensures
        drawn_indices(shapes).contains(i) <==> drawn(shapes[i]) is Some,
    decreases shapes.len(),
{
    let rest = shapes.drop_last();
    let indices = drawn_indices(shapes);
    if drawn(shapes[i]) is Some {
        if i == shapes.len() - 1 {
            assert(indices.last() == i);
        } else {
            law_every_drawable_reach_is_shown(rest, i);
            let k = choose|k: int| 0 <= k < drawn_indices(rest).len() && drawn_indices(rest)[k] == i;
            assert(indices[k] == i);
        }
    } else if indices.contains(i) {
        let k = choose|k: int| 0 <= k < indices.len() && indices[k] == i;
        lemma_drawn_indices(shapes, k);
    }
}

/// The reaches of a network as they are shown, the terminal one cut.
pub fn features_of<R>(
    network: &UpstreamReaches,
    terminal: Option<usize>,
    cut: &Geometry,
    round: &R,
) -> (r: Vec<ReachFeature>) where R: Fn(Scalar) -> Scalar
    requires
        forall|s: Scalar| call_requires(round, (s,)),
    ensures
        are_features(
            *round,
            network@.reaches,
            shown(network@.reaches, terminal, cut@),
            r@,
        ),
{
    let reaches = network.reaches();
    let ghost records = network@.reaches;
    let ghost shapes = shown(records, terminal, cut@);
    assert(records.len() == reaches@.len());
    let mut features: Vec<ReachFeature> = Vec::new();
    for i in 0..reaches.len()
        invariant
            forall|s: Scalar| call_requires(round, (s,)),
            records.len() == reaches@.len(),
            forall|k: int| 0 <= k < records.len() ==> records[k] == (#[trigger] reaches@[k])@,
            shapes == shown(records, terminal, cut@),
            are_features(*round, records, shapes.take(i as int), features@),
    {
        let ghost seen = shapes.take(i as int);
        let ghost more = shapes.take(i + 1);
        let ghost before = features@;
        assert(more.drop_last() =~= seen);
        assert(records[i as int] == reaches@[i as int]@);
        let reach = &reaches[i];
        let is_terminal = match terminal {
            Some(t) => t == i,
            None => false,
        };
        let geometry = if is_terminal {
            line_json(cut, round)
        } else {
            line_json(reach.geometry(), round)
        };
        if let Some(geometry) = geometry {
            let stem_role = match reach.stem_role() {
                Some(role) => Some(role.name()),
                None => None,
            };
            features.push(
                ReachFeature {
                    unit_id: reach.unit_id(),
                    snap_id: reach.snap_id(),
                    stem_role,
                    length_km: reach.length().as_f64(),
                    geometry,
                },
            );
            assert(is_feature(*round, records[i as int], more[i as int], features@[before.len() as int]));
        }
        assert forall|k: int| 0 <= k < features@.len() implies is_feature(
            *round,
            records[drawn_indices(more)[k]],
            more[drawn_indices(more)[k]],
            #[trigger] features@[k],
        ) by {
            if k < before.len() {
                lemma_drawn_indices(seen, k);
                assert(features@[k] == before[k]);
                assert(seen[drawn_indices(seen)[k]] == more[drawn_indices(seen)[k]]);
            }
        }
    }
    assert(shapes.take(shapes.len() as int) =~= shapes);
    features
}

/// With this terminal reach, cut and clipped, `features` show the network.
pub open spec fn is_shown_network<S, P, C, R>(
    kernels: (S, P, C, R),
    reaches: Seq<ReachRecord>,
    watershed: Seq<Rings>,
    outlet: Coord,
    terminal: Option<usize>,
    truncated: Shape,
    shapes: Vec<Vec<Vec<Coord>>>,
    cut: Shape,
    features: Seq<ReachFeature>,
) -> bool where
    S: Fn(Coord, Coord, Coord) -> Scalar,
    P: Fn(Coord, Coord) -> Scalar,
    C: Fn(&Vec<Vec<Vec<Coord>>>, &Vec<Vec<Coord>>) -> Vec<Vec<Coord>>,
    R: Fn(Scalar) -> Scalar,
 {
    &&& terminal matches Some(t) ==> is_truncated_reach(
        kernels.0,
        kernels.1,
        reaches[t as int].geometry,
        outlet,
        geometries_but(reaches, terminal),
        truncated,
    )
    &&& terminal is Some ==> shapes_view(shapes@) == shapes_of(watershed) && is_clipped(
        kernels.2,
        shapes,
        truncated,
        cut,
    )
    &&& are_features(kernels.3, reaches, shown(reaches, terminal, cut), features)
}

/// `features` show the network, with the terminal reach of `terminal_unit` cut at
/// the outlet and clipped to the watershed.
pub open spec fn are_shown_reaches<S, P, C, R>(
    kernels: (S, P, C, R),
    reaches: Seq<ReachRecord>,
    watershed: Seq<Rings>,
    terminal_unit: UnitId,
    outlet: Coord,
    features: Seq<ReachFeature>,
) -> bool where
    S: Fn(Coord, Coord, Coord) -> Scalar,
    P: Fn(Coord, Coord) -> Scalar,
    C: Fn(&Vec<Vec<Vec<Coord>>>, &Vec<Vec<Coord>>) -> Vec<Vec<Coord>>,
    R: Fn(Scalar) -> Scalar,
 {
    exists|
        terminal: Option<usize>,
        truncated: Shape,
        shapes: Vec<Vec<Vec<Coord>>>,
        cut: Shape,
    |
        is_terminal_reach(kernels.1, reaches, terminal_unit, outlet, terminal)
            && #[trigger] is_shown_network(
            kernels,
            reaches,
            watershed,
            outlet,
            terminal,
            truncated,
            shapes,
            cut,
            features,
        )
}

/// The reaches of a watershed as they are shown: the terminal one ends at the
/// outlet and inside the watershed, the others are as the fabric has them.
pub fn reach_features<S, P, C, R>(
    network: &UpstreamReaches,
    terminal_unit: UnitId,
    outlet: Coord,
    watershed: &MultiPolygon,
    to_segment: &S,
    to_point: &P,
    clip: &C,
    round: &R,
) -> (r: Vec<ReachFeature>) where
    S: Fn(Coord, Coord, Coord) -> Scalar,
    P: Fn(Coord, Coord) -> Scalar,
    C: Fn(&Vec<Vec<Vec<Coord>>>, &Vec<Vec<Coord>>) -> Vec<Vec<Coord>>,
    R: Fn(Scalar) -> Scalar,

    requires
        forall|p: Coord, a: Coord, b: Coord| call_requires(to_segment, (p, a, b)),
        forall|a: Coord, b: Coord| call_requires(to_point, (a, b)),
        forall|s: &Vec<Vec<Vec<Coord>>>, p: &Vec<Vec<Coord>>| call_requires(clip, (s, p)),
        forall|s: Scalar| call_requires(round, (s,)),
    ensures
        are_shown_reaches(
            (*to_segment, *to_point, *clip, *round),
            network@.reaches,
            watershed@,
            terminal_unit,
            outlet,
            r@,
        ),
{
    let terminal = find_terminal_reach(network, terminal_unit, outlet, to_point);
    let shapes = multipolygon_to_shapes(watershed);
    let reaches = network.reaches();
    assert(network@.reaches.len() == reaches@.len());
    let (truncated, cut) = match terminal {
        Some(t) => {
            assert(network@.reaches[t as int] == reaches@[t as int]@);
            let others = other_reaches(network, terminal);
            let truncated = truncate_terminal_reach(
                reaches[t].geometry(),
                outlet,
                &others,
                to_segment,
                to_point,
            );
            let cut = clip_reach_geometry(&truncated, &shapes, clip);
            (truncated, cut)
        },
        None => (Geometry::LineString(Vec::new()), Geometry::LineString(Vec::new())),
    };
    let r = features_of(network, terminal, &cut, round);
    assert(is_shown_network(
        (*to_segment, *to_point, *clip, *round),
        network@.reaches,
        watershed@,
        outlet,
        terminal,
        truncated@,
        shapes,
        cut@,
        r@,
    ));
    r
}

// ---- what is shown of a network ----

/// Every reach is drawn as it is, but for the terminal one, whichever it is: that is
/// drawn as it was cut.
pub proof fn law_only_the_terminal_reach_is_cut(
    reaches: Seq<ReachRecord>,
    terminal: Option<usize>,
    cut: Shape,
    i: int,
)
    requires
        0 <= i < reaches.len(),
    ensures
        shown(reaches, terminal, cut).len() == reaches.len(),
        terminal is Some && terminal->0 == i ==> shown(reaches, terminal, cut)[i] == cut,
        terminal is None || terminal->0 != i ==> shown(reaches, terminal, cut)[i]
            == reaches[i].geometry,
        i <= usize::MAX ==> shown(reaches, Some(i as usize), cut)[i] == cut,
{
}

/// What is drawn of a reach are its lines that have a vertex, in order.
pub proof fn law_drawn_are_the_lines_with_a_vertex(shape: Shape)
    ensures
        match drawn(shape) {
            None => without_empty(lines_of(shape)).len() == 0,
            Some(Drawn::Line(line)) => without_empty(lines_of(shape)) == seq![line],
            Some(Drawn::Lines(lines)) => without_empty(lines_of(shape)) == lines,
        },
        without_empty(lines_of(shape)).len() == 1 ==> drawn(shape) is Some && drawn(shape)->0
            is Line,
{
    match shape {
        Shape::Line(line) => {
            lemma_without_empty_start();
            lemma_without_empty_push(Seq::empty(), line);
            assert(lines_of(shape) =~= Seq::<Seq<Coord>>::empty().push(line));
        },
        Shape::Lines(lines) => {
            assert(lines_of(shape) =~= lines);
        },
        Shape::Other(_) => {
            lemma_without_empty_start();
            assert(lines_of(shape) =~= Seq::<Seq<Coord>>::empty());
        },
    }
}

/// Features come in the order of their reaches, and no reach comes twice.
pub proof fn law_features_keep_the_order(shapes: Seq<Shape>, p: int, q: int)
    requires
        0 <= p < q < drawn_indices(shapes).len(),
    ensures
        drawn_indices(shapes)[p] < drawn_indices(shapes)[q],
    decreases shapes.len(),
{
    let rest = shapes.drop_last();
    if q < drawn_indices(rest).len() {
        law_features_keep_the_order(rest, p, q);
    } else {
        lemma_drawn_indices(rest, p);
    }
}

/// `round` makes `h(s)` of a coordinate `s`.
pub open spec fn rounds_to<R>(round: R, h: spec_fn(Scalar) -> Scalar) -> bool where
    R: Fn(Scalar) -> Scalar,
 {
    forall|s: Scalar, r: Scalar| #[trigger] call_ensures(round, (s,), r) ==> r == h(s)
}

/// A line with each coordinate rounded in its place.
pub open spec fn with_rounded(line: Seq<Coord>, h: spec_fn(Scalar) -> Scalar) -> Seq<Coord> {
    line.map_values(|c: Coord| Coord { x: h(c.x), y: h(c.y) })
}

/// Rounding keeps every position in its place, and each of its coordinates.
pub proof fn law_rounding_keeps_positions<R>(
    round: R,
    h: spec_fn(Scalar) -> Scalar,
    line: Seq<Coord>,
    result: Seq<Coord>,
) where R: Fn(Scalar) -> Scalar
    requires
        rounds_to(round, h),
        is_rounded(round, line, result),
    ensures
        result == with_rounded(line, h),
        result.len() == line.len(),
        forall|i: int|
            0 <= i < line.len() ==> (#[trigger] result[i]).x == h(line[i].x) && result[i].y == h(
                line[i].y,
            ),
{
    assert(result =~= with_rounded(line, h));
}

/// Rounding keeps every ring in its place.
pub proof fn law_rounding_keeps_rings<R>(
    round: R,
    h: spec_fn(Scalar) -> Scalar,
    rings: Seq<Seq<Coord>>,
    result: Seq<Seq<Coord>>,
) where R: Fn(Scalar) -> Scalar
    requires
        rounds_to(round, h),
        are_rounded(round, rings, result),
    ensures
        result.len() == rings.len(),
        forall|i: int|
            0 <= i < rings.len() ==> #[trigger] result[i] == with_rounded(rings[i], h),
{
    assert forall|i: int| 0 <= i < rings.len() implies #[trigger] result[i] == with_rounded(
        rings[i],
        h,
    ) by {
        law_rounding_keeps_positions(round, h, rings[i], result[i]);
    }
}

/// The outer ring of a polygon comes first, and its holes follow in order.
pub proof fn law_outer_ring_comes_first(polygons: Seq<Rings>, p: int, k: int)
    requires
        0 <= p < polygons.len(),
    ensures
        rings_of_polygons(polygons).len() == polygons.len(),
        rings_of_polygons(polygons)[p].len() == polygons[p].interiors.len() + 1,
        rings_of_polygons(polygons)[p][0] == polygons[p].exterior,
        0 <= k < polygons[p].interiors.len() ==> rings_of_polygons(polygons)[p][k + 1]
            == polygons[p].interiors[k],
{
}

/// The lines of a reach that have a vertex, rounded, are what a line geometry shows.
pub open spec fn shows_lines(
    geometry: Drawn,
    lines: Seq<Seq<Coord>>,
    h: spec_fn(Scalar) -> Scalar,
) -> bool {
    let kept = lines.filter(|line: Seq<Coord>| line.len() > 0);
    match geometry {
        Drawn::Line(line) => kept.len() == 1 && line == with_rounded(kept[0], h),
        Drawn::Lines(all) => kept.len() > 1 && all.len() == kept.len() && forall|i: int|
            0 <= i < kept.len() ==> #[trigger] all[i] == with_rounded(kept[i], h),
    }
}

/// A reach is shown exactly where it has a line with a vertex, and then by its lines
/// that have one, rounded.
pub proof fn law_line_shows_the_reach<R>(
    round: R,
    h: spec_fn(Scalar) -> Scalar,
    shape: Shape,
    result: Option<LineGeometry>,
) where R: Fn(Scalar) -> Scalar
    requires
        rounds_to(round, h),
        is_line_json(round, shape, result),
    ensures
        result is Some <==> exists|j: int|
            0 <= j < lines_of(shape).len() && (#[trigger] lines_of(shape)[j]).len() > 0,
        result is Some ==> shows_lines(result->0@, lines_of(shape), h),
{
    let lines = lines_of(shape);
    let kept = lines.filter(|line: Seq<Coord>| line.len() > 0);
    law_drawn_are_the_lines_with_a_vertex(shape);
    law_drawn_lines_have_a_vertex(shape);
    assert(kept == without_empty(lines));
    lemma_some_line_has_a_vertex(lines);
    if result is Some {
        match (drawn(shape)->0, result->0@) {
            (Drawn::Line(line), Drawn::Line(rounded)) => {
                law_rounding_keeps_positions(round, h, line, rounded);
                assert(kept[0] == line);
            },
            (Drawn::Lines(all), Drawn::Lines(rounded)) => {
                law_rounding_keeps_rings(round, h, all, rounded);
            },
            _ => {},
        }
    }
}

proof fn lemma_some_line_has_a_vertex(lines: Seq<Seq<Coord>>)
    ensures
        without_empty(lines).len() > 0 <==> exists|j: int|
            0 <= j < lines.len() && (#[trigger] lines[j]).len() > 0,
    decreases lines.len(),
{
    if lines.len() == 0 {
        lemma_without_empty_start();
        assert(lines =~= Seq::<Seq<Coord>>::empty());
    } else {
        let rest = lines.drop_last();
        lemma_some_line_has_a_vertex(rest);
        lemma_without_empty_push(rest, lines.last());
        assert(rest.push(lines.last()) =~= lines);
        if without_empty(rest).len() > 0 {
            let j = choose|j: int| 0 <= j < rest.len() && (#[trigger] rest[j]).len() > 0;
            assert(lines[j].len() > 0);
        } else if lines.last().len() > 0 {
            assert(lines[lines.len() - 1].len() > 0);
        } else {
            assert forall|j: int| 0 <= j < lines.len() implies (#[trigger] lines[j]).len() == 0 by {
                if j < rest.len() {
                    assert(rest[j] == lines[j]);
                }
            }
        }
    }
}

/// `feature` has the identifiers, the role and the length of `reach`.
pub open spec fn names_reach(reach: ReachRecord, feature: ReachFeature) -> bool {
    &&& feature.unit_id == reach.unit_id
    &&& feature.snap_id == reach.snap_id
    &&& feature.length_km == reach.length.km
    &&& match reach.stem_role {
        None => feature.stem_role is None,
        Some(StemRole::Mainstem) => feature.stem_role is Some && feature.stem_role->0@
            == "mainstem"@,
        Some(StemRole::Tributary) => feature.stem_role is Some && feature.stem_role->0@
            == "tributary"@,
        Some(StemRole::Distributary) => feature.stem_role is Some && feature.stem_role->0@
            == "distributary"@,
        Some(StemRole::Unknown) => feature.stem_role is Some && feature.stem_role->0@
            == "unknown"@,
    }
}

/// Reach `i` has a feature where the shape it is shown in has a line with a vertex.
/// The feature has what the reach declares and shows that shape: the cut one for the
/// terminal reach, the reach's own for every other.
pub proof fn law_reach_has_its_feature<R>(
    round: R,
    h: spec_fn(Scalar) -> Scalar,
    reaches: Seq<ReachRecord>,
    terminal: Option<usize>,
    cut: Shape,
    features: Seq<ReachFeature>,
    i: int,
) where R: Fn(Scalar) -> Scalar
    requires
        rounds_to(round, h),
        are_features(round, reaches, shown(reaches, terminal, cut), features),
        0 <= i < reaches.len(),
    ensures
        ({
            let shape = if terminal is Some && terminal->0 == i {
                cut
            } else {
                reaches[i].geometry
            };
            (exists|j: int|
                0 <= j < lines_of(shape).len() && (#[trigger] lines_of(shape)[j]).len() > 0)
                ==> exists|k: int|
                0 <= k < features.len() && names_reach(reaches[i], #[trigger] features[k])
                    && shows_lines(features[k].geometry@, lines_of(shape), h)
        }),
{
    let shapes = shown(reaches, terminal, cut);
    let shape = shapes[i];
    law_only_the_terminal_reach_is_cut(reaches, terminal, cut, i);
    law_drawn_are_the_lines_with_a_vertex(shape);
    lemma_some_line_has_a_vertex(lines_of(shape));
    if exists|j: int|
        0 <= j < lines_of(shape).len() && (#[trigger] lines_of(shape)[j]).len() > 0 {
        law_every_drawable_reach_is_shown(shapes, i);
        let k = choose|k: int|
            0 <= k < drawn_indices(shapes).len() && drawn_indices(shapes)[k] == i;
        let feature = features[k];
        assert(is_feature(round, reaches[i], shape, feature));
        law_line_shows_the_reach(round, h, shape, Some(feature.geometry));
        assert(names_reach(reaches[i], feature));
    }
}

/// Every feature shows some reach, in the shape that is shown of it.
pub proof fn law_feature_shows_a_reach<R>(
    round: R,
    h: spec_fn(Scalar) -> Scalar,
    reaches: Seq<ReachRecord>,
    terminal: Option<usize>,
    cut: Shape,
    features: Seq<ReachFeature>,
    k: int,
) where R: Fn(Scalar) -> Scalar
    requires
        rounds_to(round, h),
        are_features(round, reaches, shown(reaches, terminal, cut), features),
        0 <= k < features.len(),
    ensures
        features.len() <= reaches.len(),
        exists|i: int|
            0 <= i < reaches.len() && names_reach(#[trigger] reaches[i], features[k])
                && shows_lines(
                features[k].geometry@,
                lines_of(
                    if terminal is Some && terminal->0 == i {
                        cut
                    } else {
                        reaches[i].geometry
                    },
                ),
                h,
            ),
{
    let shapes = shown(reaches, terminal, cut);
    lemma_drawn_indices(shapes, k);
    lemma_no_more_drawn(shapes);
    let i = drawn_indices(shapes)[k];
    law_only_the_terminal_reach_is_cut(reaches, terminal, cut, i);
    assert(is_feature(round, reaches[i], shapes[i], features[k]));
    law_line_shows_the_reach(round, h, shapes[i], Some(features[k].geometry));
    assert(names_reach(reaches[i], features[k]));
}

proof fn lemma_no_more_drawn(shapes: Seq<Shape>)
    ensures
        drawn_indices(shapes).len() <= shapes.len(),
    decreases shapes.len(),
{
    if shapes.len() > 0 {
        lemma_no_more_drawn(shapes.drop_last());
    }
}

/// The shape in which the first reach of the terminal unit is shown is that reach,
/// truncated at the outlet against all other reaches and then clipped to the
/// watershed. Every other reach is shown in its own shape.
pub proof fn law_terminal_reach_is_truncated_and_clipped<S, P, C, R>(
    kernels: (S, P, C, R),
    reaches: Seq<ReachRecord>,
    watershed: Seq<Rings>,
    terminal_unit: UnitId,
    outlet: Coord,
    features: Seq<ReachFeature>,
    t: usize,
) where
    S: Fn(Coord, Coord, Coord) -> Scalar,
    P: Fn(Coord, Coord) -> Scalar,
    C: Fn(&Vec<Vec<Vec<Coord>>>, &Vec<Vec<Coord>>) -> Vec<Vec<Coord>>,
    R: Fn(Scalar) -> Scalar,

    requires
        are_shown_reaches(kernels, reaches, watershed, terminal_unit, outlet, features),
        t < reaches.len(),
        reaches[t as int].unit_id == terminal_unit,
        forall|j: int| 0 <= j < t ==> (#[trigger] reaches[j]).unit_id != terminal_unit,
    ensures
        exists|truncated: Shape, shapes: Vec<Vec<Vec<Coord>>>, cut: Shape|
            {
                &&& is_truncated_reach(
                    kernels.0,
                    kernels.1,
                    reaches[t as int].geometry,
                    outlet,
                    geometries_but(reaches, Some(t)),
                    truncated,
                )
                &&& shapes_view(shapes@) == shapes_of(watershed)
                &&& #[trigger] is_clipped(kernels.2, shapes, truncated, cut)
                &&& are_features(kernels.3, reaches, shown(reaches, Some(t), cut), features)
            },
{
    let (terminal, truncated, shapes, cut) = choose|
        terminal: Option<usize>,
        truncated: Shape,
        shapes: Vec<Vec<Vec<Coord>>>,
        cut: Shape,
    |
        is_terminal_reach(kernels.1, reaches, terminal_unit, outlet, terminal)
            && #[trigger] is_shown_network(
            kernels,
            reaches,
            watershed,
            outlet,
            terminal,
            truncated,
            shapes,
            cut,
            features,
        );
    assert(!has_no_reach(reaches, terminal_unit));
    let i = terminal->0 as int;
    if i < t {
        assert(reaches[i].unit_id != terminal_unit);
    } else if t < i {
        assert(reaches[t as int].unit_id != terminal_unit);
    }
    assert(terminal == Some(t));
    assert(is_clipped(kernels.2, shapes, truncated, cut));
}

} // verus!
