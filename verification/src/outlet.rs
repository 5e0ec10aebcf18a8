//! What lies at the outlet: the terminal reach, the flow direction, and the
//! farthest point of the basin.
//!
//! As in [`crate::truncate`], distances and lengths are measured by the caller.
use vstd::prelude::*;

use crate::clip::is_sliced;
use crate::clip::slice_watershed_with_dir;
use crate::fabric::UnitId;
use crate::geometry::Coord;
use crate::geometry::Geometry;
use crate::geometry::MultiPolygon;
use crate::geometry::Rings;
use crate::geometry::Shape;
use crate::nearest::find_greatest;
use crate::nearest::find_nearest;
use crate::nearest::greatest;
use crate::nearest::law_greatest_is_a_bound;
use crate::nearest::law_nearest_exists;
use crate::nearest::law_nearest_is_the_first_smallest;
use crate::nearest::nearest;
use crate::network::ReachRecord;
use crate::network::UpstreamReaches;
use crate::scalar::Scalar;
use crate::truncate::lines_of;
use crate::truncate::measures_points;
use crate::truncate::measures_segments;
use crate::truncate::shapes_seen;

verus! {

// ---- segments ----

/// A segment from its first to its second position.
pub type Segment = (Coord, Coord);

/// The segments of a line, in its order.
pub open spec fn segments_of_line(line: Seq<Coord>) -> Seq<Segment> {
    Seq::new(
        if line.len() == 0 {
            0
        } else {
            (line.len() - 1) as nat
        },
        |i: int| (line[i], line[i + 1]),
    )
}

/// The segments of the lines of a list, in its order.
pub open spec fn segments_of_lines(lines: Seq<Seq<Coord>>) -> Seq<Segment>
    decreases lines.len(),
{
    if lines.len() == 0 {
        Seq::empty()
    } else {
        segments_of_lines(lines.drop_last()) + segments_of_line(lines.last())
    }
}

fn push_segments(segments: &mut Vec<Segment>, line: &Vec<Coord>)
    ensures
        final(segments)@ == old(segments)@ + segments_of_line(line@),
{
    if line.len() > 0 {
        for i in 0..line.len() - 1
            invariant
                line@.len() > 0,
                segments@ =~= old(segments)@ + segments_of_line(line@).take(i as int),
        {
            segments.push((line[i], line[i + 1]));
        }
    }
    assert(segments@ =~= old(segments)@ + segments_of_line(line@));
}

/// The segments of all lines of a geometry.
pub fn segments_of(geometry: &Geometry) -> (r: Vec<Segment>)
    ensures
        r@ == segments_of_lines(lines_of(geometry@)),
{
    let mut segments: Vec<Segment> = Vec::new();
    match geometry {
        Geometry::LineString(line) => {
            push_segments(&mut segments, line);
            proof {
                let lines = seq![line@];
                assert(lines.drop_last() =~= Seq::<Seq<Coord>>::empty());
                assert(segments_of_lines(lines.drop_last()) =~= Seq::<Segment>::empty());
                assert(segments@ =~= segments_of_lines(lines));
            }
        },
        Geometry::MultiLineString(lines) => {
            let ghost all = lines_of(geometry@);
            assert(all.take(0) =~= Seq::<Seq<Coord>>::empty());
            for i in 0..lines.len()
                invariant
                    all == lines_of(geometry@),
                    all.len() == lines@.len(),
                    forall|k: int| 0 <= k < lines@.len() ==> all[k] == (#[trigger] lines@[k])@,
                    segments@ =~= segments_of_lines(all.take(i as int)),
            {
                assert(all.take(i + 1).drop_last() =~= all.take(i as int));
                assert(all.take(i + 1).last() == lines@[i as int]@);
                push_segments(&mut segments, &lines[i]);
            }
            assert(all.take(all.len() as int) =~= all);
        },
        Geometry::Other(_) => {},
    }
    segments
}

// ---- flow direction ----

/// The length below which a segment has no direction: the number 1e-9.
pub const SHORTEST_BITS: u64 = 0x3e11_2e0b_e826_d695;

/// A segment of this length has no direction.
pub open spec fn is_degenerate(length: Scalar) -> bool {
    length.less(Scalar { bits: SHORTEST_BITS })
}

/// The segments whose length gives them a direction.
pub open spec fn with_direction(segments: Seq<Segment>, lengths: Seq<Scalar>) -> Seq<Segment>
    decreases segments.len(),
{
    if segments.len() == 0 {
        Seq::empty()
    } else {
        let before = with_direction(segments.drop_last(), lengths.drop_last());
        if is_degenerate(lengths.last()) {
            before
        } else {
            before.push(segments.last())
        }
    }
}

/// `lengths` are the measured lengths of `segments`.
pub open spec fn are_lengths<L>(length: L, segments: Seq<Segment>, lengths: Seq<Scalar>) -> bool where
    L: Fn(Coord, Coord) -> Scalar,
 {
    &&& lengths.len() == segments.len()
    &&& forall|i: int|
        0 <= i < segments.len() ==> call_ensures(
            length,
            (segments[i].0, segments[i].1),
            #[trigger] lengths[i],
        )
}

/// `distances` are the measured distances of `outlet` from `segments`.
pub open spec fn are_distances<S>(
    to_segment: S,
    outlet: Coord,
    segments: Seq<Segment>,
    distances: Seq<Scalar>,
) -> bool where S: Fn(Coord, Coord, Coord) -> Scalar {
    &&& distances.len() == segments.len()
    &&& forall|i: int|
        0 <= i < segments.len() ==> call_ensures(
            to_segment,
            (outlet, segments[i].0, segments[i].1),
            #[trigger] distances[i],
        )
}

/// With these lengths of `segments` and these distances from those that have a
/// direction, `result` is the nearest of the latter.
pub open spec fn is_stream_choice<L, S>(
    length: L,
    to_segment: S,
    segments: Seq<Segment>,
    outlet: Coord,
    lengths: Seq<Scalar>,
    distances: Seq<Scalar>,
    result: Option<Segment>,
) -> bool where L: Fn(Coord, Coord) -> Scalar, S: Fn(Coord, Coord, Coord) -> Scalar {
    let candidates = with_direction(segments, lengths);
    &&& are_lengths(length, segments, lengths)
    &&& are_distances(to_segment, outlet, candidates, distances)
    &&& result == match nearest(distances) {
        Some(i) => Some(candidates[i]),
        None => None,
    }
}

/// `result` is the segment at which the stream passes the outlet: the nearest of
/// those that have a direction.
pub open spec fn is_stream_segment<L, S>(
    length: L,
    to_segment: S,
    reach: Shape,
    outlet: Coord,
    result: Option<Segment>,
) -> bool where L: Fn(Coord, Coord) -> Scalar, S: Fn(Coord, Coord, Coord) -> Scalar {
    exists|lengths: Seq<Scalar>, distances: Seq<Scalar>| #[trigger]
        is_stream_choice(
            length,
            to_segment,
            segments_of_lines(lines_of(reach)),
            outlet,
            lengths,
            distances,
            result,
        )
}

/// The segment whose direction is the flow direction at the outlet, if the reach
/// has one.
pub fn get_stream_direction_at_outlet<L, S>(
    reach: &Geometry,
    outlet: Coord,
    length: &L,
    to_segment: &S,
) -> (r: Option<Segment>) where
    L: Fn(Coord, Coord) -> Scalar,
    S: Fn(Coord, Coord, Coord) -> Scalar,

    requires
        forall|a: Coord, b: Coord| call_requires(length, (a, b)),
        forall|p: Coord, a: Coord, b: Coord| call_requires(to_segment, (p, a, b)),
    ensures
        is_stream_segment(*length, *to_segment, reach@, outlet, r),
{
    let shortest = Scalar::from_bits(SHORTEST_BITS);
    let segments = segments_of(reach);
    let ghost mut lengths: Seq<Scalar> = Seq::empty();
    let mut candidates: Vec<Segment> = Vec::new();
    let mut distances: Vec<Scalar> = Vec::new();
    for i in 0..segments.len()
        invariant
            forall|a: Coord, b: Coord| call_requires(length, (a, b)),
            forall|p: Coord, a: Coord, b: Coord| call_requires(to_segment, (p, a, b)),
            shortest.bits == SHORTEST_BITS,
            are_lengths(*length, segments@.take(i as int), lengths),
            candidates@ =~= with_direction(segments@.take(i as int), lengths),
            are_distances(*to_segment, outlet, candidates@, distances@),
    {
        let ghost before = lengths;
        let (a, b) = segments[i];
        let own = length(a, b);
        proof {
            lengths = lengths.push(own);
            assert(segments@.take(i + 1).drop_last() =~= segments@.take(i as int));
            assert(lengths.drop_last() =~= before);
            assert forall|k: int| 0 <= k < i + 1 implies call_ensures(
                *length,
                (segments@.take(i + 1)[k].0, segments@.take(i + 1)[k].1),
                #[trigger] lengths[k],
            ) by {
                if k < i {
                    assert(segments@.take(i as int)[k] == segments@.take(i + 1)[k]);
                    assert(lengths[k] == before[k]);
                }
            }
        }
        if !own.lt(shortest) {
            let distance = to_segment(outlet, a, b);
            let ghost known = distances@;
            let ghost earlier = candidates@;
            candidates.push((a, b));
            distances.push(distance);
            assert forall|k: int| 0 <= k < candidates@.len() implies call_ensures(
                *to_segment,
                (outlet, candidates@[k].0, candidates@[k].1),
                #[trigger] distances@[k],
            ) by {
                if k < known.len() {
                    assert(known[k] == distances@[k] && earlier[k] == candidates@[k]);
                }
            }
        }
    }
    assert(segments@.take(segments@.len() as int) =~= segments@);
    proof {
        law_nearest_exists(distances@);
    }
    let r = match find_nearest(&distances) {
        Some(i) => Some(candidates[i]),
        None => None,
    };
    assert(is_stream_choice(*length, *to_segment, segments@, outlet, lengths, distances@, r));
    r
}

/// Slices the watershed across the stream at the outlet.
///
/// `intersect(shapes, outlet, from, to)` is the part of the shapes on the upstream
/// side of the outlet, where the stream flows along the segment from `from` to
/// `to`.
/// Where the terminal reach has no direction the watershed stays whole.
pub fn slice_watershed_at_outlet<L, S, I>(
    polygons: &MultiPolygon,
    outlet: Coord,
    terminal_reach: &Geometry,
    length: &L,
    to_segment: &S,
    intersect: &I,
) -> (r: MultiPolygon) where
    L: Fn(Coord, Coord) -> Scalar,
    S: Fn(Coord, Coord, Coord) -> Scalar,
    I: Fn(&Vec<Vec<Vec<Coord>>>, Coord, Coord, Coord) -> Vec<Vec<Vec<Coord>>>,

    requires
        forall|a: Coord, b: Coord| call_requires(length, (a, b)),
        forall|p: Coord, a: Coord, b: Coord| call_requires(to_segment, (p, a, b)),
        forall|s: &Vec<Vec<Vec<Coord>>>, o: Coord, a: Coord, b: Coord|
            call_requires(intersect, (s, o, a, b)),
    ensures
        exists|segment: Option<Segment>|
            {
                &&& #[trigger] is_stream_segment(
                    *length,
                    *to_segment,
                    terminal_reach@,
                    outlet,
                    segment,
                )
                &&& match segment {
                    None => r@ == polygons@,
                    Some((from, to)) => is_sliced(*intersect, polygons@, outlet, from, to, r@),
                }
            },
{
    let segment = get_stream_direction_at_outlet(terminal_reach, outlet, length, to_segment);
    match segment {
        None => polygons.clone(),
        Some((from, to)) => slice_watershed_with_dir(polygons, outlet, from, to, intersect),
    }
}

// ---- the terminal reach ----

/// The vertices of the lines of a reach, each with the reach's index.
pub open spec fn tagged(index: int, lines: Seq<Seq<Coord>>) -> Seq<(int, Coord)>
    decreases lines.len(),
{
    if lines.len() == 0 {
        Seq::empty()
    } else {
        tagged(index, lines.drop_last()) + lines.last().map_values(|c: Coord| (index, c))
    }
}

/// The vertices of all reaches, each with its reach's index.
pub open spec fn vertices_of(reaches: Seq<ReachRecord>) -> Seq<(int, Coord)>
    decreases reaches.len(),
{
    if reaches.len() == 0 {
        Seq::empty()
    } else {
        vertices_of(reaches.drop_last()) + tagged(
            reaches.len() - 1,
            lines_of(reaches.last().geometry),
        )
    }
}

/// `distances` are the measured distances of `outlet` from `vertices`.
pub open spec fn are_vertex_distances<P>(
    to_point: P,
    outlet: Coord,
    vertices: Seq<(int, Coord)>,
    distances: Seq<Scalar>,
) -> bool where P: Fn(Coord, Coord) -> Scalar {
    &&& distances.len() == vertices.len()
    &&& forall|i: int|
        0 <= i < vertices.len() ==> call_ensures(
            to_point,
            (outlet, vertices[i].1),
            #[trigger] distances[i],
        )
}

/// Reach `i` is the first one that belongs to `unit`.
pub open spec fn is_first_of_unit(reaches: Seq<ReachRecord>, unit: UnitId, i: int) -> bool {
    &&& 0 <= i < reaches.len()
    &&& reaches[i].unit_id == unit
    &&& forall|j: int| 0 <= j < i ==> (#[trigger] reaches[j]).unit_id != unit
}

/// No reach belongs to `unit`.
pub open spec fn has_no_reach(reaches: Seq<ReachRecord>, unit: UnitId) -> bool {
    forall|j: int| 0 <= j < reaches.len() ==> (#[trigger] reaches[j]).unit_id != unit
}

/// `result` is the terminal reach: the first one of the terminal unit or, where
/// that unit has none, the reach with the vertex nearest to the outlet.
pub open spec fn is_terminal_reach<P>(
    to_point: P,
    reaches: Seq<ReachRecord>,
    terminal: UnitId,
    outlet: Coord,
    result: Option<usize>,
) -> bool where P: Fn(Coord, Coord) -> Scalar {
    if has_no_reach(reaches, terminal) {
        exists|distances: Seq<Scalar>|
            {
                &&& #[trigger] are_vertex_distances(
                    to_point,
                    outlet,
                    vertices_of(reaches),
                    distances,
                )
                &&& match nearest(distances) {
                    Some(i) => result matches Some(index) && index == vertices_of(reaches)[i].0,
                    None => result is None,
                }
            }
    } else {
        result matches Some(index) && is_first_of_unit(reaches, terminal, index as int)
    }
}

spec fn as_ints(vertices: Seq<(usize, Coord)>) -> Seq<(int, Coord)> {
    vertices.map_values(|v: (usize, Coord)| (v.0 as int, v.1))
}

fn push_vertices(vertices: &mut Vec<(usize, Coord)>, index: usize, line: &Vec<Coord>)
    ensures
        as_ints(final(vertices)@) == as_ints(old(vertices)@) + line@.map_values(
            |c: Coord| (index as int, c),
        ),
{
    let ghost all = line@.map_values(|c: Coord| (index as int, c));
    for i in 0..line.len()
        invariant
            all == line@.map_values(|c: Coord| (index as int, c)),
            as_ints(vertices@) =~= as_ints(old(vertices)@) + all.take(i as int),
    {
        let ghost before = vertices@;
        vertices.push((index, line[i]));
        assert(as_ints(vertices@) =~= as_ints(before).push((index as int, line@[i as int])));
        assert(all.take(i + 1) =~= all.take(i as int).push(all[i as int]));
    }
    assert(all.take(all.len() as int) =~= all);
}

/// The reach that leaves the watershed, by index.
pub fn find_terminal_reach<P>(
    network: &UpstreamReaches,
    terminal: UnitId,
    outlet: Coord,
    to_point: &P,
) -> (r: Option<usize>) where P: Fn(Coord, Coord) -> Scalar
    requires
        forall|a: Coord, b: Coord| call_requires(to_point, (a, b)),
    ensures
        is_terminal_reach(*to_point, network@.reaches, terminal, outlet, r),
        r matches Some(i) ==> i < network@.reaches.len(),
{
    let reaches = network.reaches();
    let ghost records = network@.reaches;
    assert(records.len() == reaches@.len());
    for i in 0..reaches.len()
        invariant
            records == network@.reaches,
            records.len() == reaches@.len(),
            forall|k: int| 0 <= k < records.len() ==> records[k] == (#[trigger] reaches@[k])@,
            forall|j: int| 0 <= j < i ==> (#[trigger] records[j]).unit_id != terminal,
    {
        assert(records[i as int] == reaches@[i as int]@);
        if reaches[i].unit_id() == terminal {
            assert(is_first_of_unit(records, terminal, i as int));
            return Some(i);
        }
    }
    let mut vertices: Vec<(usize, Coord)> = Vec::new();
    assert(records.take(0) =~= Seq::<ReachRecord>::empty());
    assert(as_ints(vertices@) =~= vertices_of(records.take(0)));
    for i in 0..reaches.len()
        invariant
            records.len() == reaches@.len(),
            forall|k: int| 0 <= k < records.len() ==> records[k] == (#[trigger] reaches@[k])@,
            as_ints(vertices@) =~= vertices_of(records.take(i as int)),
            forall|k: int| 0 <= k < vertices@.len() ==> (#[trigger] vertices@[k]).0 < i,
    {
        let ghost before = as_ints(vertices@);
        assert(records.take(i + 1).drop_last() =~= records.take(i as int));
        assert(records.take(i + 1).last() == reaches@[i as int]@);
        match reaches[i].geometry() {
            Geometry::LineString(line) => {
                push_vertices(&mut vertices, i, line);
                proof {
                    let lines = seq![line@];
                    assert(lines.drop_last() =~= Seq::<Seq<Coord>>::empty());
                    assert(tagged(i as int, lines.drop_last()) =~= Seq::<(int, Coord)>::empty());
                    assert(tagged(i as int, lines) =~= line@.map_values(|c: Coord| (i as int, c)));
                }
            },
            Geometry::MultiLineString(lines) => {
                let ghost all = lines_of(records[i as int].geometry);
                assert(all.take(0) =~= Seq::<Seq<Coord>>::empty());
                for j in 0..lines.len()
                    invariant
                        all.len() == lines@.len(),
                        forall|k: int| 0 <= k < lines@.len() ==> all[k] == (#[trigger] lines@[k])@,
                        as_ints(vertices@) =~= before + tagged(i as int, all.take(j as int)),
                {
                    assert(all.take(j + 1).drop_last() =~= all.take(j as int));
                    assert(all.take(j + 1).last() == lines@[j as int]@);
                    push_vertices(&mut vertices, i, &lines[j]);
                }
                assert(all.take(all.len() as int) =~= all);
            },
            Geometry::Other(_) => {},
        }
        assert(as_ints(vertices@) =~= vertices_of(records.take(i + 1)));
        assert forall|k: int| 0 <= k < vertices@.len() implies (#[trigger] vertices@[k]).0 < i + 1 by {
            lemma_vertex_index(records.take(i + 1), k);
            assert(as_ints(vertices@)[k].0 == vertices@[k].0);
        }
    }
    assert(records.take(records.len() as int) =~= records);
    let mut distances: Vec<Scalar> = Vec::new();
    for i in 0..vertices.len()
        invariant
            forall|a: Coord, b: Coord| call_requires(to_point, (a, b)),
            distances@.len() == i,
            forall|k: int|
                0 <= k < i ==> call_ensures(
                    to_point,
                    (outlet, as_ints(vertices@)[k].1),
                    #[trigger] distances@[k],
                ),
    {
        let distance = to_point(outlet, vertices[i].1);
        distances.push(distance);
    }
    proof {
        law_nearest_exists(distances@);
        assert(are_vertex_distances(*to_point, outlet, vertices_of(records), distances@));
    }
    match find_nearest(&distances) {
        Some(i) => {
            assert(as_ints(vertices@)[i as int].0 == vertices@[i as int].0);
            Some(vertices[i].0)
        },
        None => None,
    }
}

proof fn lemma_tagged_index(index: int, lines: Seq<Seq<Coord>>, k: int)
    requires
        0 <= k < tagged(index, lines).len(),
    ensures
        tagged(index, lines)[k].0 == index,
    decreases lines.len(),
{
    let before = tagged(index, lines.drop_last());
    if k < before.len() {
        lemma_tagged_index(index, lines.drop_last(), k);
    }
}

/// A vertex carries the index of a reach.
proof fn lemma_vertex_index(reaches: Seq<ReachRecord>, k: int)
    requires
        0 <= k < vertices_of(reaches).len(),
    ensures
        0 <= vertices_of(reaches)[k].0 < reaches.len(),
    decreases reaches.len(),
{
    let before = vertices_of(reaches.drop_last());
    if k < before.len() {
        lemma_vertex_index(reaches.drop_last(), k);
    } else {
        lemma_tagged_index(
            reaches.len() - 1,
            lines_of(reaches.last().geometry),
            k - before.len(),
        );
    }
}

/// The geometries of reaches.
pub open spec fn geometries_of(reaches: Seq<ReachRecord>) -> Seq<Shape> {
    reaches.map_values(|reach: ReachRecord| reach.geometry)
}

/// The geometries of all reaches but the one that is left out.
pub open spec fn geometries_but(reaches: Seq<ReachRecord>, left_out: Option<usize>) -> Seq<Shape> {
    match left_out {
        Some(i) => if i < reaches.len() {
            geometries_of(reaches).remove(i as int)
        } else {
            geometries_of(reaches)
        },
        None => geometries_of(reaches),
    }
}

/// The geometries of all reaches but the one that is left out.
pub fn other_reaches(network: &UpstreamReaches, left_out: Option<usize>) -> (r: Vec<&Geometry>)
    ensures
        shapes_seen(r@) == geometries_but(network@.reaches, left_out),
{
    let reaches = network.reaches();
    let ghost records = network@.reaches;
    assert(records.len() == reaches@.len());
    let mut others: Vec<&Geometry> = Vec::new();
    assert(shapes_seen(others@) =~= geometries_but(records.take(0), left_out));
    for i in 0..reaches.len()
        invariant
            records == network@.reaches,
            records.len() == reaches@.len(),
            forall|k: int| 0 <= k < records.len() ==> records[k] == (#[trigger] reaches@[k])@,
            shapes_seen(others@) == geometries_but(records.take(i as int), left_out),
    {
        let ghost before = shapes_seen(others@);
        let ghost known = geometries_of(records.take(i as int));
        let ghost own = records[i as int].geometry;
        assert(records[i as int] == reaches@[i as int]@);
        assert(geometries_of(records.take(i + 1)) =~= known.push(own));
        let keep = match left_out {
            Some(l) => l != i,
            None => true,
        };
        if keep {
            others.push(reaches[i].geometry());
            assert(shapes_seen(others@) =~= before.push(own));
            assert(shapes_seen(others@) =~= geometries_but(records.take(i + 1), left_out));
        } else {
            assert(known.push(own).remove(i as int) =~= known);
        }
    }
    assert(records.take(records.len() as int) =~= records);
    others
}

// ---- basin length ----

/// The vertices of the exterior rings, in the order of the polygons.
pub open spec fn boundary_of(polygons: Seq<Rings>) -> Seq<Coord>
    decreases polygons.len(),
{
    if polygons.len() == 0 {
        Seq::empty()
    } else {
        boundary_of(polygons.drop_last()) + polygons.last().exterior
    }
}

/// `distances` are the measured distances of `outlet` from `positions`.
pub open spec fn are_point_distances<P>(
    to_point: P,
    outlet: Coord,
    positions: Seq<Coord>,
    distances: Seq<Scalar>,
) -> bool where P: Fn(Coord, Coord) -> Scalar {
    &&& distances.len() == positions.len()
    &&& forall|i: int|
        0 <= i < positions.len() ==> call_ensures(
            to_point,
            (outlet, positions[i]),
            #[trigger] distances[i],
        )
}

/// The longest distance from the outlet to the basin's boundary.
///
/// `to_point(a, b)` is the geodesic distance in kilometres.
pub fn basin_length_km<P>(outlet: Coord, polygons: &MultiPolygon, to_point: &P) -> (r:
    Scalar) where P: Fn(Coord, Coord) -> Scalar
    requires
        forall|a: Coord, b: Coord| call_requires(to_point, (a, b)),
    ensures
        exists|distances: Seq<Scalar>| #[trigger]
            are_point_distances(*to_point, outlet, boundary_of(polygons@), distances) && r
                == greatest(distances),
{
    let mut distances: Vec<Scalar> = Vec::new();
    let ghost all = polygons@;
    assert(all.take(0) =~= Seq::<Rings>::empty());
    for i in 0..polygons.polygons.len()
        invariant
            forall|a: Coord, b: Coord| call_requires(to_point, (a, b)),
            all == polygons@,
            are_point_distances(*to_point, outlet, boundary_of(all.take(i as int)), distances@),
    {
        let ghost before = boundary_of(all.take(i as int));
        assert(all.take(i + 1).drop_last() =~= all.take(i as int));
        let ring = &polygons.polygons[i].exterior;
        assert(all.take(i + 1).last().exterior == ring@);
        for j in 0..ring.len()
            invariant
                forall|a: Coord, b: Coord| call_requires(to_point, (a, b)),
                are_point_distances(*to_point, outlet, before + ring@.take(j as int), distances@),
        {
            let ghost known = distances@;
            let ghost seen = before + ring@.take(j as int);
            let distance = to_point(outlet, ring[j]);
            distances.push(distance);
            proof {
                let more = before + ring@.take(j + 1);
                assert(more =~= seen.push(ring@[j as int]));
                assert forall|k: int| 0 <= k < more.len() implies call_ensures(
                    *to_point,
                    (outlet, more[k]),
                    #[trigger] distances@[k],
                ) by {
                    if k < known.len() {
                        assert(distances@[k] == known[k]);
                        assert(more[k] == seen[k]);
                    }
                }
            }
        }
        assert(before + ring@.take(ring@.len() as int) =~= boundary_of(all.take(i + 1)));
    }
    assert(all.take(all.len() as int) =~= all);
    find_greatest(&distances)
}

// ---- what is looked at ----

/// The boundary of polygons holds every vertex of every exterior ring, and nothing
/// else.
pub proof fn law_boundary_is_every_exterior_vertex(polygons: Seq<Rings>, vertex: Coord)
    ensures
        boundary_of(polygons).contains(vertex) <==> exists|p: int, k: int|
            0 <= p < polygons.len() && 0 <= k < polygons[p].exterior.len()
                && #[trigger] polygons[p].exterior[k] == vertex,
    decreases polygons.len(),
{
    if polygons.len() > 0 {
        let rest = polygons.drop_last();
        let last = polygons.len() - 1;
        let before = boundary_of(rest);
        let own = polygons[last].exterior;
        let all = boundary_of(polygons);
        law_boundary_is_every_exterior_vertex(rest, vertex);
        assert(all == before + own);
        if all.contains(vertex) {
            let k = choose|k: int| 0 <= k < all.len() && all[k] == vertex;
            if k < before.len() {
                assert(before[k] == vertex);
                assert(before.contains(vertex));
                let (p, j) = choose|p: int, j: int|
                    0 <= p < rest.len() && 0 <= j < rest[p].exterior.len()
                        && #[trigger] rest[p].exterior[j] == vertex;
                assert(polygons[p].exterior[j] == vertex);
            } else {
                assert(polygons[last].exterior[k - before.len()] == vertex);
            }
        }
        if exists|p: int, k: int|
            0 <= p < polygons.len() && 0 <= k < polygons[p].exterior.len()
                && #[trigger] polygons[p].exterior[k] == vertex {
            let (p, k) = choose|p: int, k: int|
                0 <= p < polygons.len() && 0 <= k < polygons[p].exterior.len()
                    && #[trigger] polygons[p].exterior[k] == vertex;
            if p < last {
                assert(rest[p].exterior[k] == vertex);
                let j = choose|j: int| 0 <= j < before.len() && before[j] == vertex;
                assert(all[j] == vertex);
            } else {
                assert(all[before.len() + k] == vertex);
            }
        }
    }
}

/// No vertex of an exterior ring is farther from the outlet than the basin is long,
/// and the basin is as long as one of them is far, or has no length.
pub proof fn law_basin_reaches_its_farthest_vertex<P>(
    to_point: P,
    f: spec_fn(Coord, Coord) -> Scalar,
    outlet: Coord,
    polygons: Seq<Rings>,
    distances: Seq<Scalar>,
    length: Scalar,
) where P: Fn(Coord, Coord) -> Scalar
    requires
        measures_points(to_point, f),
        are_point_distances(to_point, outlet, boundary_of(polygons), distances),
        length == greatest(distances),
    ensures
        length.is_number(),
        forall|p: int, k: int|
            0 <= p < polygons.len() && 0 <= k < polygons[p].exterior.len() && f(
                outlet,
                #[trigger] polygons[p].exterior[k],
            ).is_number() ==> f(outlet, polygons[p].exterior[k]).at_most(length),
        length == (Scalar { bits: 0 }) || exists|p: int, k: int|
            0 <= p < polygons.len() && 0 <= k < polygons[p].exterior.len() && f(
                outlet,
                #[trigger] polygons[p].exterior[k],
            ) == length,
{
    let boundary = boundary_of(polygons);
    law_greatest_is_a_bound(distances);
    assert forall|p: int, k: int|
        0 <= p < polygons.len() && 0 <= k < polygons[p].exterior.len() && f(
            outlet,
            #[trigger] polygons[p].exterior[k],
        ).is_number() implies f(outlet, polygons[p].exterior[k]).at_most(length) by {
        let vertex = polygons[p].exterior[k];
        law_boundary_is_every_exterior_vertex(polygons, vertex);
        let i = choose|i: int| 0 <= i < boundary.len() && boundary[i] == vertex;
        assert(distances[i] == f(outlet, vertex));
    }
    if distances.contains(length) {
        let i = choose|i: int| 0 <= i < distances.len() && distances[i] == length;
        assert(distances[i] == f(outlet, boundary[i]));
        assert(boundary.contains(boundary[i]));
        law_boundary_is_every_exterior_vertex(polygons, boundary[i]);
        let (p, k) = choose|p: int, k: int|
            0 <= p < polygons.len() && 0 <= k < polygons[p].exterior.len()
                && #[trigger] polygons[p].exterior[k] == boundary[i];
        assert(f(outlet, polygons[p].exterior[k]) == length);
    }
}

/// The segments of lines join each vertex to the next, line by line, and no line to
/// another.
pub proof fn law_segments_join_neighbours(lines: Seq<Seq<Coord>>, line: Seq<Coord>)
    ensures
        segments_of_lines(Seq::empty()).len() == 0,
        segments_of_lines(lines.push(line)) == segments_of_lines(lines) + segments_of_lines(
            seq![line],
        ),
        segments_of_lines(seq![line]).len() == if line.len() == 0 {
            0
        } else {
            line.len() - 1
        },
        forall|i: int|
            0 <= i < line.len() - 1 ==> #[trigger] segments_of_lines(seq![line])[i] == (
                line[i],
                line[i + 1],
            ),
{
    assert(lines.push(line).drop_last() =~= lines);
    assert(seq![line].drop_last() =~= Seq::<Seq<Coord>>::empty());
    assert(segments_of_lines(Seq::<Seq<Coord>>::empty()) =~= Seq::<Segment>::empty());
    assert(segments_of_lines(seq![line]) =~= segments_of_line(line));
}

/// A segment is passed over exactly where its length is below one billionth.
pub proof fn law_segments_with_a_direction_stay(
    segments: Seq<Segment>,
    lengths: Seq<Scalar>,
    segment: Segment,
    length: Scalar,
)
    requires
        lengths.len() == segments.len(),
    ensures
        with_direction(Seq::empty(), Seq::empty()).len() == 0,
        length.less(Scalar { bits: 0x3e11_2e0b_e826_d695 }) ==> with_direction(
            segments.push(segment),
            lengths.push(length),
        ) == with_direction(segments, lengths),
        !length.less(Scalar { bits: 0x3e11_2e0b_e826_d695 }) ==> with_direction(
            segments.push(segment),
            lengths.push(length),
        ) == with_direction(segments, lengths).push(segment),
{
    assert(segments.push(segment).drop_last() =~= segments);
    assert(lengths.push(length).drop_last() =~= lengths);
}

/// Where a candidate stands among the segments: those before it that have a
/// direction are the candidates before it.
proof fn lemma_candidate_index(segments: Seq<Segment>, lengths: Seq<Scalar>, k: int) -> (i: int)
    requires
        lengths.len() == segments.len(),
        0 <= k < with_direction(segments, lengths).len(),
    ensures
        0 <= i < segments.len(),
        segments[i] == with_direction(segments, lengths)[k],
        !is_degenerate(lengths[i]),
        forall|j: int|
            0 <= j < i && !is_degenerate(#[trigger] lengths[j]) ==> exists|m: int|
                0 <= m < k && #[trigger] with_direction(segments, lengths)[m] == segments[j],
    decreases segments.len(),
{
    let rest = segments.drop_last();
    let known = lengths.drop_last();
    let before = with_direction(rest, known);
    let all = with_direction(segments, lengths);
    if k < before.len() {
        let i = lemma_candidate_index(rest, known, k);
        assert forall|j: int| 0 <= j < i && !is_degenerate(#[trigger] lengths[j]) implies exists|
            m: int,
        |
            0 <= m < k && #[trigger] all[m] == segments[j] by {
            assert(known[j] == lengths[j]);
            let m = choose|m: int| 0 <= m < k && #[trigger] before[m] == rest[j];
            assert(all[m] == segments[j]);
        }
        i
    } else {
        let i = segments.len() - 1;
        assert forall|j: int| 0 <= j < i && !is_degenerate(#[trigger] lengths[j]) implies exists|
            m: int,
        |
            0 <= m < k && #[trigger] all[m] == segments[j] by {
            assert(known[j] == lengths[j]);
            let m = lemma_candidate_of(rest, known, j);
            assert(all[m] == segments[j]);
        }
        i
    }
}

proof fn lemma_candidate_of(segments: Seq<Segment>, lengths: Seq<Scalar>, j: int) -> (m: int)
    requires
        lengths.len() == segments.len(),
        0 <= j < segments.len(),
        !is_degenerate(lengths[j]),
    ensures
        0 <= m < with_direction(segments, lengths).len(),
        with_direction(segments, lengths)[m] == segments[j],
    decreases segments.len(),
{
    let rest = segments.drop_last();
    let known = lengths.drop_last();
    if j < rest.len() {
        assert(known[j] == lengths[j] && rest[j] == segments[j]);
        lemma_candidate_of(rest, known, j)
    } else {
        with_direction(rest, known).len() as int
    }
}

/// The stream passes the outlet on the first of the segments that are nearest to the
/// outlet and not shorter than one billionth; on none only where there is no such
/// segment within any distance.
pub proof fn law_stream_passes_on_the_nearest_segment<L, S>(
    length: L,
    to_segment: S,
    f: spec_fn(Coord, Coord) -> Scalar,
    g: spec_fn(Coord, Coord, Coord) -> Scalar,
    reach: Shape,
    outlet: Coord,
    result: Option<Segment>,
) where L: Fn(Coord, Coord) -> Scalar, S: Fn(Coord, Coord, Coord) -> Scalar
    requires
        measures_points(length, f),
        measures_segments(to_segment, g),
        is_stream_segment(length, to_segment, reach, outlet, result),
    ensures
        ({
            let all = segments_of_lines(lines_of(reach));
            let short = Scalar { bits: 0x3e11_2e0b_e826_d695 };
            let beyond = Scalar { bits: 0x7ff0_0000_0000_0000 };
            match result {
                Some(passed) => exists|i: int|
                    {
                        &&& 0 <= i < all.len()
                        &&& #[trigger] all[i] == passed
                        &&& !f(passed.0, passed.1).less(short)
                        &&& g(outlet, passed.0, passed.1).less(beyond)
                        &&& forall|j: int|
                            0 <= j < all.len() && !f((#[trigger] all[j]).0, all[j].1).less(short)
                                ==> !g(outlet, all[j].0, all[j].1).less(
                                g(outlet, passed.0, passed.1),
                            )
                        &&& forall|j: int|
                            0 <= j < i && !f((#[trigger] all[j]).0, all[j].1).less(short) ==> !g(
                                outlet,
                                all[j].0,
                                all[j].1,
                            ).at_most(g(outlet, passed.0, passed.1))
                    },
                None => forall|j: int|
                    0 <= j < all.len() && !f((#[trigger] all[j]).0, all[j].1).less(short) ==> !g(
                        outlet,
                        all[j].0,
                        all[j].1,
                    ).less(beyond),
            }
        }),
{
    let all = segments_of_lines(lines_of(reach));
    let short = Scalar { bits: 0x3e11_2e0b_e826_d695 };
    let (lengths, distances) = choose|lengths: Seq<Scalar>, distances: Seq<Scalar>| #[trigger]
        is_stream_choice(length, to_segment, all, outlet, lengths, distances, result);
    let candidates = with_direction(all, lengths);
    law_nearest_is_the_first_smallest(distances);
    assert forall|j: int| 0 <= j < all.len() implies #[trigger] lengths[j] == f(
        all[j].0,
        all[j].1,
    ) by {}
    assert forall|m: int| 0 <= m < candidates.len() implies #[trigger] distances[m] == g(
        outlet,
        candidates[m].0,
        candidates[m].1,
    ) by {}
    match result {
        Some(passed) => {
            let k = nearest(distances)->0;
            let i = lemma_candidate_index(all, lengths, k);
            assert(lengths[i] == f(all[i].0, all[i].1));
            assert(all[i] == passed);
            assert forall|j: int|
                0 <= j < all.len() && !f((#[trigger] all[j]).0, all[j].1).less(short) implies !g(
                outlet,
                all[j].0,
                all[j].1,
            ).less(g(outlet, passed.0, passed.1)) by {
                assert(lengths[j] == f(all[j].0, all[j].1));
                let m = lemma_candidate_of(all, lengths, j);
                assert(!distances[m].less(distances[k]));
            }
            assert forall|j: int|
                0 <= j < i && !f((#[trigger] all[j]).0, all[j].1).less(short) implies !g(
                outlet,
                all[j].0,
                all[j].1,
            ).at_most(g(outlet, passed.0, passed.1)) by {
                assert(lengths[j] == f(all[j].0, all[j].1));
                assert(!is_degenerate(lengths[j]));
                let m = choose|m: int| 0 <= m < k && #[trigger] candidates[m] == all[j];
                assert(!distances[m].at_most(distances[k]));
            }
        },
        None => {
            assert forall|j: int|
                0 <= j < all.len() && !f((#[trigger] all[j]).0, all[j].1).less(short) implies !g(
                outlet,
                all[j].0,
                all[j].1,
            ).less(Scalar { bits: 0x7ff0_0000_0000_0000 }) by {
                assert(lengths[j] == f(all[j].0, all[j].1));
                let m = lemma_candidate_of(all, lengths, j);
                assert(!distances[m].less(Scalar { bits: 0x7ff0_0000_0000_0000 }));
            }
        },
    }
}

// ---- which reach is the terminal one ----

proof fn lemma_tagged_members(index: int, lines: Seq<Seq<Coord>>, vertex: Coord)
    ensures
        tagged(index, lines).contains((index, vertex)) <==> exists|j: int, k: int|
            0 <= j < lines.len() && 0 <= k < lines[j].len() && #[trigger] lines[j][k] == vertex,
    decreases lines.len(),
{
    if lines.len() > 0 {
        let rest = lines.drop_last();
        let last = lines.len() - 1;
        let before = tagged(index, rest);
        let own = lines.last().map_values(|c: Coord| (index, c));
        let all = tagged(index, lines);
        lemma_tagged_members(index, rest, vertex);
        assert(all == before + own);
        if all.contains((index, vertex)) {
            let m = choose|m: int| 0 <= m < all.len() && all[m] == (index, vertex);
            if m < before.len() {
                assert(before[m] == (index, vertex));
                assert(before.contains((index, vertex)));
                let (j, k) = choose|j: int, k: int|
                    0 <= j < rest.len() && 0 <= k < rest[j].len() && #[trigger] rest[j][k]
                        == vertex;
                assert(lines[j][k] == vertex);
            } else {
                assert(lines[last][m - before.len()] == vertex);
            }
        }
        if exists|j: int, k: int|
            0 <= j < lines.len() && 0 <= k < lines[j].len() && #[trigger] lines[j][k] == vertex {
            let (j, k) = choose|j: int, k: int|
                0 <= j < lines.len() && 0 <= k < lines[j].len() && #[trigger] lines[j][k]
                    == vertex;
            if j < last {
                assert(rest[j][k] == vertex);
                let m = choose|m: int| 0 <= m < before.len() && before[m] == (index, vertex);
                assert(all[m] == (index, vertex));
            } else {
                assert(own[k] == (index, vertex));
                assert(all[before.len() + k] == (index, vertex));
            }
        }
    }
}

/// `vertex` is a vertex of reach `r`.
pub open spec fn is_vertex_of(reaches: Seq<ReachRecord>, r: int, vertex: Coord) -> bool {
    0 <= r < reaches.len() && exists|j: int, k: int|
        0 <= j < lines_of(reaches[r].geometry).len() && 0 <= k < lines_of(
            reaches[r].geometry,
        )[j].len() && #[trigger] lines_of(reaches[r].geometry)[j][k] == vertex
}

/// The vertices of reaches are all the vertices of all their lines, each with its
/// reach, and nothing else.
pub proof fn law_vertices_are_those_of_all_reaches(
    reaches: Seq<ReachRecord>,
    r: int,
    vertex: Coord,
)
    ensures
        vertices_of(reaches).contains((r, vertex)) <==> is_vertex_of(reaches, r, vertex),
    decreases reaches.len(),
{
    if reaches.len() > 0 {
        let rest = reaches.drop_last();
        let last = reaches.len() - 1;
        let before = vertices_of(rest);
        let own = tagged(last, lines_of(reaches.last().geometry));
        let all = vertices_of(reaches);
        law_vertices_are_those_of_all_reaches(rest, r, vertex);
        lemma_tagged_members(last, lines_of(reaches.last().geometry), vertex);
        assert(all == before + own);
        if r < last {
            assert(0 <= r ==> rest[r] == reaches[r]);
            assert(is_vertex_of(rest, r, vertex) <==> is_vertex_of(reaches, r, vertex));
        }
        if all.contains((r, vertex)) {
            let m = choose|m: int| 0 <= m < all.len() && all[m] == (r, vertex);
            if m < before.len() {
                assert(before[m] == (r, vertex));
                assert(before.contains((r, vertex)));
                lemma_vertex_index(rest, m);
            } else {
                lemma_tagged_index(last, lines_of(reaches.last().geometry), m - before.len());
                assert(own[m - before.len()] == (last, vertex));
                assert(own.contains((last, vertex)));
            }
        }
        if is_vertex_of(reaches, r, vertex) {
            if r < last {
                let m = choose|m: int| 0 <= m < before.len() && before[m] == (r, vertex);
                assert(all[m] == (r, vertex));
            } else {
                let m = choose|m: int| 0 <= m < own.len() && own[m] == (last, vertex);
                assert(all[before.len() + m] == (r, vertex));
            }
        }
    }
}

proof fn lemma_vertices_in_order(reaches: Seq<ReachRecord>, p: int, q: int)
    requires
        0 <= p <= q < vertices_of(reaches).len(),
    ensures
        vertices_of(reaches)[p].0 <= vertices_of(reaches)[q].0,
    decreases reaches.len(),
{
    let rest = reaches.drop_last();
    let before = vertices_of(rest);
    let own = lines_of(reaches.last().geometry);
    if q < before.len() {
        lemma_vertices_in_order(rest, p, q);
    } else {
        lemma_tagged_index(reaches.len() - 1, own, q - before.len());
        if p < before.len() {
            lemma_vertex_index(rest, p);
        } else {
            lemma_tagged_index(reaches.len() - 1, own, p - before.len());
        }
    }
}

/// The terminal reach is the first one of the terminal unit. Where that unit has
/// none, it is the first reach with a vertex that no vertex of any reach is nearer to
/// the outlet than; there is none only where no vertex is within any distance.
pub proof fn law_terminal_reach_is_the_units_or_the_nearest<P>(
    to_point: P,
    f: spec_fn(Coord, Coord) -> Scalar,
    reaches: Seq<ReachRecord>,
    terminal: UnitId,
    outlet: Coord,
    result: Option<usize>,
) where P: Fn(Coord, Coord) -> Scalar
    requires
        measures_points(to_point, f),
        is_terminal_reach(to_point, reaches, terminal, outlet, result),
    ensures
        forall|i: int|
            0 <= i < reaches.len() && (#[trigger] reaches[i]).unit_id == terminal && (forall|j: int|
                0 <= j < i ==> (#[trigger] reaches[j]).unit_id != terminal) ==> result == Some(
                i as usize,
            ),
        (forall|i: int| 0 <= i < reaches.len() ==> (#[trigger] reaches[i]).unit_id != terminal)
            ==> match result {
            Some(r) => exists|v: Coord|
                {
                    &&& #[trigger] is_vertex_of(reaches, r as int, v)
                    &&& f(outlet, v).less(Scalar { bits: 0x7ff0_0000_0000_0000 })
                    &&& forall|q: int, w: Coord| #[trigger]
                        is_vertex_of(reaches, q, w) ==> !f(outlet, w).less(f(outlet, v))
                    &&& forall|q: int, w: Coord|
                        q < r && #[trigger] is_vertex_of(reaches, q, w) ==> !f(outlet, w).at_most(
                            f(outlet, v),
                        )
                },
            None => forall|q: int, w: Coord| #[trigger]
                is_vertex_of(reaches, q, w) ==> !f(outlet, w).less(
                    Scalar { bits: 0x7ff0_0000_0000_0000 },
                ),
        },
{
    assert forall|i: int|
        0 <= i < reaches.len() && (#[trigger] reaches[i]).unit_id == terminal && (forall|j: int|
            0 <= j < i ==> (#[trigger] reaches[j]).unit_id != terminal) implies result == Some(
        i as usize,
    ) by {
        assert(!has_no_reach(reaches, terminal));
        let r = result->0 as int;
        if r < i {
            assert(reaches[r].unit_id != terminal);
        } else if i < r {
            assert(reaches[i].unit_id != terminal);
        }
    }
    if forall|i: int| 0 <= i < reaches.len() ==> (#[trigger] reaches[i]).unit_id != terminal {
        assert(has_no_reach(reaches, terminal));
        let all = vertices_of(reaches);
        let distances = choose|distances: Seq<Scalar>|
            {
                &&& #[trigger] are_vertex_distances(to_point, outlet, all, distances)
                &&& match nearest(distances) {
                    Some(i) => result matches Some(index) && index == all[i].0,
                    None => result is None,
                }
            };
        law_nearest_is_the_first_smallest(distances);
        assert forall|m: int| 0 <= m < all.len() implies #[trigger] distances[m] == f(
            outlet,
            all[m].1,
        ) by {}
        if result is Some {
            let r = result->0 as int;
            let k = nearest(distances)->0;
            let v = all[k].1;
            assert(all[k] == (r, v));
            assert(all.contains((r, v)));
            law_vertices_are_those_of_all_reaches(reaches, r, v);
            assert(distances[k] == f(outlet, v));
            assert forall|q: int, w: Coord| #[trigger] is_vertex_of(reaches, q, w) implies !f(
                outlet,
                w,
            ).less(f(outlet, v)) && (q < r ==> !f(outlet, w).at_most(f(outlet, v))) by {
                law_vertices_are_those_of_all_reaches(reaches, q, w);
                let m = choose|m: int| 0 <= m < all.len() && all[m] == (q, w);
                assert(distances[m] == f(outlet, w));
                assert(!distances[m].less(distances[k]));
                if q < r {
                    if m >= k {
                        lemma_vertices_in_order(reaches, k, m);
                    }
                    assert(!distances[m].at_most(distances[k]));
                }
            }
            assert(is_vertex_of(reaches, r, v));
        } else {
            assert forall|q: int, w: Coord| #[trigger] is_vertex_of(reaches, q, w) implies !f(
                outlet,
                w,
            ).less(Scalar { bits: 0x7ff0_0000_0000_0000 }) by {
                law_vertices_are_those_of_all_reaches(reaches, q, w);
                let m = choose|m: int| 0 <= m < all.len() && all[m] == (q, w);
                assert(distances[m] == f(outlet, w));
                assert(!distances[m].less(Scalar { bits: 0x7ff0_0000_0000_0000 }));
            }
        }
    }
}

/// The other reaches are all reaches in order, but for the one left out.
pub proof fn law_other_reaches_are_all_but_one(
    reaches: Seq<ReachRecord>,
    left_out: Option<usize>,
    k: int,
)
    ensures
        match left_out {
            Some(l) => l < reaches.len() ==> {
                &&& geometries_but(reaches, left_out).len() == reaches.len() - 1
                &&& 0 <= k < l ==> geometries_but(reaches, left_out)[k] == reaches[k].geometry
                &&& l < k < reaches.len() ==> geometries_but(reaches, left_out)[k - 1]
                    == reaches[k].geometry
            },
            None => true,
        },
        left_out is None || left_out->0 >= reaches.len() ==> {
            &&& geometries_but(reaches, left_out).len() == reaches.len()
            &&& 0 <= k < reaches.len() ==> geometries_but(reaches, left_out)[k]
                == reaches[k].geometry
        },
{
}

} // verus!
