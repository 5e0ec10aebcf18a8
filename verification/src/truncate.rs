//! Ending the terminal reach at the outlet.
//!
//! The reach that leaves a watershed usually runs past the outlet. Here it is
//! cut at the segment that passes nearest to the outlet, the downstream part is
//! dropped, and the outlet becomes its last vertex.
//!
//! Distances are measured by the caller: `to_segment(p, a, b)` is how far `p`
//! lies from the segment from `a` to `b`, `to_point(a, b)` how far `a` lies from
//! `b`. Both measure in the same way, so that their results can be compared.
use vstd::prelude::*;

use crate::geometry::copy_line;
use crate::geometry::lemma_filter_all;
use crate::geometry::lemma_lines_view_push;
use crate::geometry::lemma_without_empty_push;
use crate::geometry::lemma_without_empty_start;
use crate::geometry::lines_view;
use crate::geometry::without_empty;
use crate::geometry::Coord;
use crate::geometry::Geometry;
use crate::geometry::GeometryKind;
use crate::geometry::Shape;
use crate::nearest::find_least;
use crate::nearest::find_nearest;
use crate::nearest::law_least_is_a_bound;
use crate::nearest::law_nearest_exists;
use crate::nearest::least;
use crate::nearest::nearest;
use crate::scalar::law_infinity_is_greatest;
use crate::scalar::Scalar;

verus! {

/// The two ends of a line; none where it has no vertex.
pub open spec fn line_ends(line: Seq<Coord>) -> Seq<Coord> {
    if line.len() == 0 {
        Seq::empty()
    } else {
        seq![line.first(), line.last()]
    }
}

/// The ends of the lines of a list, in its order.
pub open spec fn ends_of_lines(lines: Seq<Seq<Coord>>) -> Seq<Coord>
    decreases lines.len(),
{
    if lines.len() == 0 {
        Seq::empty()
    } else {
        ends_of_lines(lines.drop_last()) + line_ends(lines.last())
    }
}

/// The lines of a geometry.
pub open spec fn lines_of(shape: Shape) -> Seq<Seq<Coord>> {
    match shape {
        Shape::Line(line) => seq![line],
        Shape::Lines(lines) => lines,
        Shape::Other(_) => Seq::empty(),
    }
}

/// What a list of borrowed geometries holds.
pub open spec fn shapes_seen(geometries: Seq<&Geometry>) -> Seq<Shape> {
    Seq::new(geometries.len(), |i: int| geometries[i]@)
}

/// The ends of all lines of a list of geometries, in its order.
pub open spec fn ends_of(shapes: Seq<Shape>) -> Seq<Coord>
    decreases shapes.len(),
{
    if shapes.len() == 0 {
        Seq::empty()
    } else {
        ends_of(shapes.drop_last()) + ends_of_lines(lines_of(shapes.last()))
    }
}

fn push_line_ends(ends: &mut Vec<Coord>, line: &Vec<Coord>)
    ensures
        final(ends)@ == old(ends)@ + line_ends(line@),
{
    if line.len() > 0 {
        ends.push(line[0]);
        ends.push(line[line.len() - 1]);
    }
    assert(ends@ =~= old(ends)@ + line_ends(line@));
}

/// The ends of all lines of the geometries: where another reach can connect.
pub fn reach_ends(geometries: &Vec<&Geometry>) -> (r: Vec<Coord>)
    ensures
        r@ == ends_of(shapes_seen(geometries@)),
{
    let ghost shapes = shapes_seen(geometries@);
    let mut ends: Vec<Coord> = Vec::new();
    for i in 0..geometries.len()
        invariant
            shapes == shapes_seen(geometries@),
            ends@ =~= ends_of(shapes.take(i as int)),
    {
        let ghost before = ends@;
        assert(shapes.take(i + 1).drop_last() =~= shapes.take(i as int));
        assert(shapes.take(i + 1).last() == geometries@[i as int]@);
        match geometries[i] {
            Geometry::LineString(line) => {
                push_line_ends(&mut ends, line);
                proof {
                    let lines = seq![line@];
                    assert(lines.drop_last() =~= Seq::<Seq<Coord>>::empty());
                    assert(ends_of_lines(lines.drop_last()) =~= Seq::<Coord>::empty());
                    assert(ends_of_lines(lines) =~= line_ends(line@));
                }
            },
            Geometry::MultiLineString(lines) => {
                let ghost all = lines_view(lines@);
                assert(all.take(0) =~= Seq::<Seq<Coord>>::empty());
                for j in 0..lines.len()
                    invariant
                        all == lines_view(lines@),
                        ends@ =~= before + ends_of_lines(all.take(j as int)),
                {
                    assert(all.take(j + 1).drop_last() =~= all.take(j as int));
                    push_line_ends(&mut ends, &lines[j]);
                }
                assert(all.take(all.len() as int) =~= all);
            },
            Geometry::Other(_) => {},
        }
    }
    assert(shapes.take(shapes.len() as int) =~= shapes);
    ends
}

/// What has been measured of a line that is to end at the outlet.
pub struct LineDistances {
    /// From the outlet to each segment, in the order of the line.
    pub segments: Vec<Scalar>,
    /// From the line's start and end to the outlet.
    pub start_to_outlet: Scalar,
    pub end_to_outlet: Scalar,
    /// From the line's start and end to each end of the other reaches.
    pub start_to_others: Vec<Scalar>,
    pub end_to_others: Vec<Scalar>,
}

/// The segment at which the line is cut: the nearest one, or the first where no
/// distance is below infinity.
pub open spec fn cut_segment(distances: LineDistances) -> int {
    match nearest(distances.segments@) {
        Some(i) => i,
        None => 0,
    }
}

/// The line's start is its upstream end.
///
/// Where there are other reaches, the end that is nearest to one of theirs is
/// upstream. Where there are none (`alone`), it is the end farther from the
/// outlet, and the start also where the cut lies beyond the first segment.
pub open spec fn starts_upstream(distances: LineDistances, alone: bool) -> bool {
    if alone {
        distances.end_to_outlet.at_most(distances.start_to_outlet) || cut_segment(distances) > 0
    } else {
        least(distances.start_to_others@).at_most(least(distances.end_to_others@))
    }
}

/// The part of the line upstream of the cut, from its upstream end, with the
/// outlet as its last vertex.
pub open spec fn truncated(
    line: Seq<Coord>,
    outlet: Coord,
    distances: LineDistances,
    alone: bool,
) -> Seq<Coord> {
    let cut = cut_segment(distances);
    if starts_upstream(distances, alone) {
        line.take(cut + 1).push(outlet)
    } else {
        line.skip(cut + 1).reverse().push(outlet)
    }
}

/// Cuts a line of at least one segment, from what was measured of it.
pub fn truncate_line(
    line: &Vec<Coord>,
    outlet: Coord,
    distances: &LineDistances,
    alone: bool,
) -> (r: Vec<Coord>)
    requires
        line@.len() >= 2,
        distances.segments@.len() == line@.len() - 1,
    ensures
        r@ == truncated(line@, outlet, *distances, alone),
{
    proof {
        law_nearest_exists(distances.segments@);
    }
    let cut: usize = match find_nearest(&distances.segments) {
        Some(i) => i,
        None => 0,
    };
    assert(cut + 1 < line.len());
    let from_start = if alone {
        distances.end_to_outlet.le(distances.start_to_outlet) || cut > 0
    } else {
        find_least(&distances.start_to_others).le(find_least(&distances.end_to_others))
    };
    let mut kept: Vec<Coord> = Vec::new();
    if from_start {
        for i in 0..cut + 1
            invariant
                cut + 1 < line@.len(),
                kept@ =~= line@.take(i as int),
        {
            kept.push(line[i]);
        }
    } else {
        let ghost reversed = line@.skip(cut + 1).reverse();
        let mut i: usize = line.len();
        while i > cut + 1
            invariant
                cut + 1 <= i <= line@.len(),
                reversed == line@.skip(cut + 1).reverse(),
                kept@ =~= reversed.take(line@.len() - i),
            decreases i,
        {
            i = i - 1;
            kept.push(line[i]);
        }
        assert(kept@ =~= reversed);
    }
    kept.push(outlet);
    kept
}

/// `distances` is what the two measures say of `line`.
pub open spec fn measured<S, P>(
    to_segment: S,
    to_point: P,
    line: Seq<Coord>,
    outlet: Coord,
    ends: Seq<Coord>,
    distances: LineDistances,
) -> bool where S: Fn(Coord, Coord, Coord) -> Scalar, P: Fn(Coord, Coord) -> Scalar {
    &&& distances.segments@.len() == line.len() - 1
    &&& forall|i: int|
        0 <= i < line.len() - 1 ==> call_ensures(
            to_segment,
            (outlet, line[i], line[i + 1]),
            #[trigger] distances.segments@[i],
        )
    &&& call_ensures(to_point, (line.first(), outlet), distances.start_to_outlet)
    &&& call_ensures(to_point, (line.last(), outlet), distances.end_to_outlet)
    &&& distances.start_to_others@.len() == ends.len()
    &&& distances.end_to_others@.len() == ends.len()
    &&& forall|i: int|
        0 <= i < ends.len() ==> call_ensures(
            to_point,
            (line.first(), ends[i]),
            #[trigger] distances.start_to_others@[i],
        )
    &&& forall|i: int|
        0 <= i < ends.len() ==> call_ensures(
            to_point,
            (line.last(), ends[i]),
            #[trigger] distances.end_to_others@[i],
        )
}

/// Measures a line of at least one segment.
fn measure_line<S, P>(
    line: &Vec<Coord>,
    outlet: Coord,
    ends: &Vec<Coord>,
    to_segment: &S,
    to_point: &P,
) -> (r: LineDistances) where S: Fn(Coord, Coord, Coord) -> Scalar, P: Fn(Coord, Coord) -> Scalar
    requires
        line@.len() >= 2,
        forall|p: Coord, a: Coord, b: Coord| call_requires(to_segment, (p, a, b)),
        forall|a: Coord, b: Coord| call_requires(to_point, (a, b)),
    ensures
        measured(*to_segment, *to_point, line@, outlet, ends@, r),
{
    let first = line[0];
    let last = line[line.len() - 1];
    let mut segments: Vec<Scalar> = Vec::new();
    for i in 0..line.len() - 1
        invariant
            line@.len() >= 2,
            forall|p: Coord, a: Coord, b: Coord| call_requires(to_segment, (p, a, b)),
            segments@.len() == i,
            forall|k: int|
                0 <= k < i ==> call_ensures(
                    to_segment,
                    (outlet, line@[k], line@[k + 1]),
                    #[trigger] segments@[k],
                ),
    {
        let distance = to_segment(outlet, line[i], line[i + 1]);
        segments.push(distance);
    }
    let mut start_to_others: Vec<Scalar> = Vec::new();
    let mut end_to_others: Vec<Scalar> = Vec::new();
    for i in 0..ends.len()
        invariant
            forall|a: Coord, b: Coord| call_requires(to_point, (a, b)),
            start_to_others@.len() == i,
            end_to_others@.len() == i,
            forall|k: int|
                0 <= k < i ==> call_ensures(
                    to_point,
                    (first, ends@[k]),
                    #[trigger] start_to_others@[k],
                ),
            forall|k: int|
                0 <= k < i ==> call_ensures(
                    to_point,
                    (last, ends@[k]),
                    #[trigger] end_to_others@[k],
                ),
    {
        let from_start = to_point(first, ends[i]);
        let from_end = to_point(last, ends[i]);
        start_to_others.push(from_start);
        end_to_others.push(from_end);
    }
    let start_to_outlet = to_point(first, outlet);
    let end_to_outlet = to_point(last, outlet);
    LineDistances { segments, start_to_outlet, end_to_outlet, start_to_others, end_to_others }
}

/// `cut` is `line` ended at the outlet: a line without a segment as it is, any
/// other one truncated by what the two measures say of it.
pub open spec fn is_cut<S, P>(
    to_segment: S,
    to_point: P,
    line: Seq<Coord>,
    outlet: Coord,
    others: Seq<Shape>,
    cut: Seq<Coord>,
) -> bool where S: Fn(Coord, Coord, Coord) -> Scalar, P: Fn(Coord, Coord) -> Scalar {
    if line.len() < 2 {
        cut == line
    } else {
        exists|distances: LineDistances| #[trigger]
            measured(to_segment, to_point, line, outlet, ends_of(others), distances) && cut
                == truncated(line, outlet, distances, others.len() == 0)
    }
}

fn cut_line<S, P>(
    line: &Vec<Coord>,
    outlet: Coord,
    others: Ghost<Seq<Shape>>,
    ends: &Vec<Coord>,
    alone: bool,
    to_segment: &S,
    to_point: &P,
) -> (r: Vec<Coord>) where S: Fn(Coord, Coord, Coord) -> Scalar, P: Fn(Coord, Coord) -> Scalar
    requires
        ends@ == ends_of(others@),
        alone == (others@.len() == 0),
        forall|p: Coord, a: Coord, b: Coord| call_requires(to_segment, (p, a, b)),
        forall|a: Coord, b: Coord| call_requires(to_point, (a, b)),
    ensures
        is_cut(*to_segment, *to_point, line@, outlet, others@, r@),
{
    if line.len() < 2 {
        copy_line(line)
    } else {
        let distances = measure_line(line, outlet, ends, to_segment, to_point);
        truncate_line(line, outlet, &distances, alone)
    }
}

/// A geometry of these lines: a single line where there is exactly one.
pub open spec fn gathered(lines: Seq<Seq<Coord>>) -> Shape {
    if lines.len() == 1 {
        Shape::Line(lines[0])
    } else {
        Shape::Lines(lines)
    }
}

/// A geometry of these lines: a single line where there is exactly one.
pub fn gather_lines(lines: Vec<Vec<Coord>>) -> (r: Geometry)
    ensures
        r@ == gathered(lines_view(lines@)),
{
    if lines.len() == 1 {
        Geometry::LineString(copy_line(&lines[0]))
    } else {
        Geometry::MultiLineString(lines)
    }
}

/// `result` is the terminal reach `reach` ended at the outlet.
///
/// Each line of the reach is cut by itself. Lines without a vertex are dropped,
/// and a single line that remains stands for itself. A geometry that is no line
/// stays as it is.
pub open spec fn is_truncated_reach<S, P>(
    to_segment: S,
    to_point: P,
    reach: Shape,
    outlet: Coord,
    others: Seq<Shape>,
    result: Shape,
) -> bool where S: Fn(Coord, Coord, Coord) -> Scalar, P: Fn(Coord, Coord) -> Scalar {
    match reach {
        Shape::Line(line) => result matches Shape::Line(cut) && is_cut(
            to_segment,
            to_point,
            line,
            outlet,
            others,
            cut,
        ),
        Shape::Lines(lines) => exists|cuts: Seq<Seq<Coord>>|
            {
                &&& cuts.len() == lines.len()
                &&& forall|i: int|
                    0 <= i < lines.len() ==> is_cut(
                        to_segment,
                        to_point,
                        lines[i],
                        outlet,
                        others,
                        #[trigger] cuts[i],
                    )
                &&& result == gathered(#[trigger] without_empty(cuts))
            },
        Shape::Other(_) => result == reach,
    }
}

/// Ends a terminal reach at the outlet, dropping what lies downstream of it.
pub fn truncate_terminal_reach<S, P>(
    reach: &Geometry,
    outlet: Coord,
    other_reaches: &Vec<&Geometry>,
    to_segment: &S,
    to_point: &P,
) -> (r: Geometry) where S: Fn(Coord, Coord, Coord) -> Scalar, P: Fn(Coord, Coord) -> Scalar
    requires
        forall|p: Coord, a: Coord, b: Coord| call_requires(to_segment, (p, a, b)),
        forall|a: Coord, b: Coord| call_requires(to_point, (a, b)),
    ensures
        is_truncated_reach(
            *to_segment,
            *to_point,
            reach@,
            outlet,
            shapes_seen(other_reaches@),
            r@,
        ),
{
    let ghost others = shapes_seen(other_reaches@);
    let ends = reach_ends(other_reaches);
    let alone = other_reaches.len() == 0;
    match reach {
        Geometry::LineString(line) => {
            let cut = cut_line(line, outlet, Ghost(others), &ends, alone, to_segment, to_point);
            Geometry::LineString(cut)
        },
        Geometry::MultiLineString(lines) => {
            let ghost mut cuts: Seq<Seq<Coord>> = Seq::empty();
            let mut kept: Vec<Vec<Coord>> = Vec::new();
            proof {
                lemma_without_empty_start();
            }
            for i in 0..lines.len()
                invariant
                    others == shapes_seen(other_reaches@),
                    ends@ == ends_of(others),
                    alone == (others.len() == 0),
                    forall|p: Coord, a: Coord, b: Coord| call_requires(to_segment, (p, a, b)),
                    forall|a: Coord, b: Coord| call_requires(to_point, (a, b)),
                    cuts.len() == i,
                    forall|k: int|
                        0 <= k < i ==> is_cut(
                            *to_segment,
                            *to_point,
                            lines_view(lines@)[k],
                            outlet,
                            others,
                            #[trigger] cuts[k],
                        ),
                    lines_view(kept@) =~= without_empty(cuts),
            {
                let cut = cut_line(
                    &lines[i],
                    outlet,
                    Ghost(others),
                    &ends,
                    alone,
                    to_segment,
                    to_point,
                );
                proof {
                    lemma_without_empty_push(cuts, cut@);
                    cuts = cuts.push(cut@);
                }
                if cut.len() > 0 {
                    proof {
                        lemma_lines_view_push(kept@, cut);
                    }
                    kept.push(cut);
                }
            }
            let r = gather_lines(kept);
            assert(r@ == gathered(without_empty(cuts)));
            r
        },
        Geometry::Other(kind) => Geometry::Other(*kind),
    }
}

/// A truncated line has a segment, ends at the outlet, and is otherwise a run of
/// the line's own vertices, from one of the line's ends.
pub proof fn law_truncated_line_ends_at_outlet(
    line: Seq<Coord>,
    outlet: Coord,
    distances: LineDistances,
    alone: bool,
)
    requires
        line.len() >= 2,
        distances.segments@.len() == line.len() - 1,
    ensures
        ({
            let cut = truncated(line, outlet, distances, alone);
            let n = cut.len() - 1;
            &&& n >= 1
            &&& cut.last() == outlet
            &&& cut.drop_last() == line.take(n) || cut.drop_last() == line.skip(
                line.len() - n,
            ).reverse()
        }),
{
    law_nearest_exists(distances.segments@);
    let cut = truncated(line, outlet, distances, alone);
    let at = cut_segment(distances);
    if starts_upstream(distances, alone) {
        assert(cut.drop_last() =~= line.take(at + 1));
    } else {
        assert(cut.drop_last() =~= line.skip(at + 1).reverse());
    }
}

/// Whatever the measures say, each line with a segment of a truncated reach ends
/// at the outlet.
pub proof fn law_truncated_reach_ends_at_outlet<S, P>(
    to_segment: S,
    to_point: P,
    reach: Shape,
    outlet: Coord,
    others: Seq<Shape>,
    result: Shape,
) where S: Fn(Coord, Coord, Coord) -> Scalar, P: Fn(Coord, Coord) -> Scalar
    requires
        is_truncated_reach(to_segment, to_point, reach, outlet, others, result),
        forall|i: int| 0 <= i < lines_of(reach).len() ==> (#[trigger] lines_of(reach)[i]).len() >= 2,
    ensures
        lines_of(result).len() == lines_of(reach).len(),
        forall|i: int|
            0 <= i < lines_of(result).len() ==> (#[trigger] lines_of(result)[i]).len() >= 2
                && lines_of(result)[i].last() == outlet,
{
    match reach {
        Shape::Line(line) => {
            assert(lines_of(reach)[0] == line);
            let cut = result->Line_0;
            let distances = choose|distances: LineDistances| #[trigger]
                measured(to_segment, to_point, line, outlet, ends_of(others), distances) && cut
                    == truncated(line, outlet, distances, others.len() == 0);
            law_truncated_line_ends_at_outlet(line, outlet, distances, others.len() == 0);
        },
        Shape::Lines(lines) => {
            let cuts = choose|cuts: Seq<Seq<Coord>>|
                {
                    &&& cuts.len() == lines.len()
                    &&& forall|i: int|
                        0 <= i < lines.len() ==> is_cut(
                            to_segment,
                            to_point,
                            lines[i],
                            outlet,
                            others,
                            #[trigger] cuts[i],
                        )
                    &&& result == gathered(#[trigger] without_empty(cuts))
                };
            assert forall|i: int| 0 <= i < cuts.len() implies (#[trigger] cuts[i]).len() >= 2
                && cuts[i].last() == outlet by {
                let line = lines[i];
                assert(lines_of(reach)[i] == line);
                let distances = choose|distances: LineDistances| #[trigger]
                    measured(to_segment, to_point, line, outlet, ends_of(others), distances)
                        && cuts[i] == truncated(line, outlet, distances, others.len() == 0);
                law_truncated_line_ends_at_outlet(line, outlet, distances, others.len() == 0);
            }
            lemma_filter_all(cuts, |cut: Seq<Coord>| cut.len() > 0);
        },
        Shape::Other(_) => {},
    }
}

// ---- which end, and where ----

/// The lines of a geometry: the line itself, or its lines; anything else has none.
pub proof fn law_lines_of(line: Seq<Coord>, lines: Seq<Seq<Coord>>, kind: GeometryKind)
    ensures
        lines_of(Shape::Line(line)).len() == 1 && lines_of(Shape::Line(line))[0] == line,
        lines_of(Shape::Lines(lines)) == lines,
        lines_of(Shape::Other(kind)).len() == 0,
{
}

/// `end` is where a line of one of the geometries begins or ends.
pub open spec fn is_end_of(end: Coord, shapes: Seq<Shape>) -> bool {
    exists|i: int, j: int|
        {
            &&& 0 <= i < shapes.len()
            &&& 0 <= j < lines_of(shapes[i]).len()
            &&& (#[trigger] lines_of(shapes[i])[j]).len() > 0
            &&& end == lines_of(shapes[i])[j].first() || end == lines_of(shapes[i])[j].last()
        }
}

proof fn lemma_ends_of_lines(lines: Seq<Seq<Coord>>, end: Coord)
    ensures
        ends_of_lines(lines).contains(end) <==> exists|j: int|
            0 <= j < lines.len() && (#[trigger] lines[j]).len() > 0 && (end == lines[j].first()
                || end == lines[j].last()),
    decreases lines.len(),
{
    if lines.len() > 0 {
        let rest = lines.drop_last();
        let last = lines.len() - 1;
        let before = ends_of_lines(rest);
        let own = line_ends(lines.last());
        let ends = ends_of_lines(lines);
        lemma_ends_of_lines(rest, end);
        assert(ends == before + own);
        assert(lines[last] == lines.last());
        if ends.contains(end) {
            let k = choose|k: int| 0 <= k < ends.len() && ends[k] == end;
            if k < before.len() {
                assert(before[k] == end);
                assert(before.contains(end));
                let j = choose|j: int|
                    0 <= j < rest.len() && (#[trigger] rest[j]).len() > 0 && (end
                        == rest[j].first() || end == rest[j].last());
                assert(lines[j] == rest[j]);
            } else {
                assert(own[k - before.len()] == end);
            }
        }
        if exists|j: int|
            0 <= j < lines.len() && (#[trigger] lines[j]).len() > 0 && (end == lines[j].first()
                || end == lines[j].last()) {
            let j = choose|j: int|
                0 <= j < lines.len() && (#[trigger] lines[j]).len() > 0 && (end
                    == lines[j].first() || end == lines[j].last());
            if j < last {
                assert(rest[j] == lines[j]);
                let k = choose|k: int| 0 <= k < before.len() && before[k] == end;
                assert(ends[k] == end);
            } else if end == lines[j].first() {
                assert(ends[before.len() as int] == end);
            } else {
                assert(ends[before.len() as int + 1] == end);
            }
        }
    }
}

/// The ends of geometries are where their lines begin and end: all of them, and
/// nothing else.
pub proof fn law_ends_are_the_ends_of_all_lines(shapes: Seq<Shape>, end: Coord)
    ensures
        ends_of(shapes).contains(end) <==> is_end_of(end, shapes),
    decreases shapes.len(),
{
    if shapes.len() > 0 {
        let rest = shapes.drop_last();
        let last = shapes.len() - 1;
        let before = ends_of(rest);
        let own = ends_of_lines(lines_of(shapes.last()));
        let ends = ends_of(shapes);
        law_ends_are_the_ends_of_all_lines(rest, end);
        lemma_ends_of_lines(lines_of(shapes.last()), end);
        assert(ends == before + own);
        assert(shapes[last] == shapes.last());
        if ends.contains(end) {
            let k = choose|k: int| 0 <= k < ends.len() && ends[k] == end;
            if k < before.len() {
                assert(before[k] == end);
                assert(before.contains(end));
                let (i, j) = choose|i: int, j: int|
                    {
                        &&& 0 <= i < rest.len()
                        &&& 0 <= j < lines_of(rest[i]).len()
                        &&& (#[trigger] lines_of(rest[i])[j]).len() > 0
                        &&& end == lines_of(rest[i])[j].first() || end == lines_of(
                            rest[i],
                        )[j].last()
                    };
                assert(lines_of(shapes[i])[j] == lines_of(rest[i])[j]);
            } else {
                assert(own[k - before.len()] == end);
                assert(own.contains(end));
                let lines = lines_of(shapes.last());
                let j = choose|j: int|
                    0 <= j < lines.len() && (#[trigger] lines[j]).len() > 0 && (end
                        == lines[j].first() || end == lines[j].last());
                assert(lines_of(shapes[last])[j] == lines[j]);
            }
        }
        if is_end_of(end, shapes) {
            let (i, j) = choose|i: int, j: int|
                {
                    &&& 0 <= i < shapes.len()
                    &&& 0 <= j < lines_of(shapes[i]).len()
                    &&& (#[trigger] lines_of(shapes[i])[j]).len() > 0
                    &&& end == lines_of(shapes[i])[j].first() || end == lines_of(
                        shapes[i],
                    )[j].last()
                };
            if i < last {
                assert(lines_of(rest[i])[j] == lines_of(shapes[i])[j]);
                let k = choose|k: int| 0 <= k < before.len() && before[k] == end;
                assert(ends[k] == end);
            } else {
                let lines = lines_of(shapes.last());
                assert(lines[j] == lines_of(shapes[i])[j]);
                let k = choose|k: int| 0 <= k < own.len() && own[k] == end;
                assert(ends[before.len() + k] == end);
            }
        }
    }
}

/// The measure of two positions is `f`.
pub open spec fn measures_points<P>(to_point: P, f: spec_fn(Coord, Coord) -> Scalar) -> bool where
    P: Fn(Coord, Coord) -> Scalar,
 {
    forall|a: Coord, b: Coord, r: Scalar| #[trigger]
        call_ensures(to_point, (a, b), r) ==> r == f(a, b)
}

/// The measure of a position and a segment is `g`.
pub open spec fn measures_segments<S>(
    to_segment: S,
    g: spec_fn(Coord, Coord, Coord) -> Scalar,
) -> bool where S: Fn(Coord, Coord, Coord) -> Scalar {
    forall|p: Coord, a: Coord, b: Coord, r: Scalar| #[trigger]
        call_ensures(to_segment, (p, a, b), r) ==> r == g(p, a, b)
}

/// Where an end of another reach is no farther from the line's start than any is
/// from its end, the truncated line begins at the line's start. This holds in
/// particular where another reach ends at the start. Where an end is nearer to the
/// line's end than any is to its start, it begins at the line's end.
pub proof fn law_truncated_line_begins_where_another_reach_joins<S, P>(
    to_segment: S,
    to_point: P,
    f: spec_fn(Coord, Coord) -> Scalar,
    line: Seq<Coord>,
    outlet: Coord,
    others: Seq<Shape>,
    cut: Seq<Coord>,
    join: Coord,
) where S: Fn(Coord, Coord, Coord) -> Scalar, P: Fn(Coord, Coord) -> Scalar
    requires
        measures_points(to_point, f),
        line.len() >= 2,
        others.len() > 0,
        is_cut(to_segment, to_point, line, outlet, others, cut),
        is_end_of(join, others),
    ensures
        f(line.first(), join).is_number() && (forall|end: Coord| #[trigger]
            is_end_of(end, others) ==> !f(line.last(), end).less(f(line.first(), join)))
            ==> cut.first() == line.first(),
        f(line.last(), join).less(Scalar { bits: 0x7ff0_0000_0000_0000 }) && (forall|end: Coord|
         #[trigger]
            is_end_of(end, others) ==> !f(line.first(), end).at_most(f(line.last(), join)))
            ==> cut.first() == line.last(),
{
    let ends = ends_of(others);
    let d = choose|distances: LineDistances| #[trigger]
        measured(to_segment, to_point, line, outlet, ends, distances) && cut == truncated(
            line,
            outlet,
            distances,
            others.len() == 0,
        );
    let start = d.start_to_others@;
    let end = d.end_to_others@;
    law_ends_are_the_ends_of_all_lines(others, join);
    let k = choose|k: int| 0 <= k < ends.len() && ends[k] == join;
    assert(start[k] == f(line.first(), join));
    assert(end[k] == f(line.last(), join));
    law_least_is_a_bound(start);
    law_least_is_a_bound(end);
    law_truncated_line_ends_at_outlet(line, outlet, d, false);
    law_nearest_exists(d.segments@);
    let low = least(start);
    let high = least(end);
    let at = cut_segment(d);
    assert(line.take(at + 1).push(outlet).first() == line.first());
    assert(line.skip(at + 1).reverse().push(outlet).first() == line.last());
    if f(line.first(), join).is_number() && (forall|e: Coord| #[trigger]
        is_end_of(e, others) ==> !f(line.last(), e).less(f(line.first(), join))) {
        assert(low.at_most(start[k]));
        if end.contains(high) {
            let m = choose|m: int| 0 <= m < end.len() && end[m] == high;
            assert(ends.contains(ends[m]));
            law_ends_are_the_ends_of_all_lines(others, ends[m]);
            assert(is_end_of(ends[m], others));
            assert(end[m] == f(line.last(), ends[m]));
        } else {
            law_infinity_is_greatest(low);
        }
        assert(low.at_most(high));
    }
    if f(line.last(), join).less(Scalar { bits: 0x7ff0_0000_0000_0000 }) && (forall|e: Coord|
     #[trigger]
        is_end_of(e, others) ==> !f(line.first(), e).at_most(f(line.last(), join))) {
        assert(high.at_most(end[k]));
        if start.contains(low) {
            let m = choose|m: int| 0 <= m < start.len() && start[m] == low;
            assert(ends.contains(ends[m]));
            law_ends_are_the_ends_of_all_lines(others, ends[m]);
            assert(is_end_of(ends[m], others));
            assert(start[m] == f(line.first(), ends[m]));
        }
        assert(!low.at_most(high));
    }
}

/// Where there is no other reach, the truncated line begins at the line's start if
/// that is no nearer to the outlet than its end is, or if the line comes nearest to
/// the outlet after its first segment; and at the line's end otherwise.
pub proof fn law_lone_line_begins_away_from_the_outlet<S, P>(
    to_segment: S,
    to_point: P,
    f: spec_fn(Coord, Coord) -> Scalar,
    g: spec_fn(Coord, Coord, Coord) -> Scalar,
    line: Seq<Coord>,
    outlet: Coord,
    cut: Seq<Coord>,
) where S: Fn(Coord, Coord, Coord) -> Scalar, P: Fn(Coord, Coord) -> Scalar
    requires
        measures_points(to_point, f),
        measures_segments(to_segment, g),
        line.len() >= 2,
        is_cut(to_segment, to_point, line, outlet, Seq::empty(), cut),
    ensures
        f(line.last(), outlet).at_most(f(line.first(), outlet)) ==> cut.first() == line.first(),
        (exists|k: int|
            0 < k < line.len() - 1 && #[trigger] g(outlet, line[k], line[k + 1]).less(
                g(outlet, line[0], line[1]),
            )) ==> cut.first() == line.first(),
        !f(line.last(), outlet).at_most(f(line.first(), outlet)) && (forall|k: int|
            0 < k < line.len() - 1 ==> g(outlet, line[0], line[1]).at_most(
                #[trigger] g(outlet, line[k], line[k + 1]),
            )) ==> cut.first() == line.last(),
{
    let none = Seq::<Shape>::empty();
    let d = choose|distances: LineDistances| #[trigger]
        measured(to_segment, to_point, line, outlet, ends_of(none), distances) && cut == truncated(
            line,
            outlet,
            distances,
            none.len() == 0,
        );
    let s = d.segments@;
    law_nearest_exists(s);
    let at = cut_segment(d);
    assert(line.take(at + 1).push(outlet).first() == line.first());
    assert(line.skip(at + 1).reverse().push(outlet).first() == line.last());
    assert(d.start_to_outlet == f(line.first(), outlet));
    assert(d.end_to_outlet == f(line.last(), outlet));
    assert(s[0] == g(outlet, line[0], line[1]));
    if exists|k: int|
        0 < k < line.len() - 1 && #[trigger] g(outlet, line[k], line[k + 1]).less(
            g(outlet, line[0], line[1]),
        ) {
        let k = choose|k: int|
            0 < k < line.len() - 1 && #[trigger] g(outlet, line[k], line[k + 1]).less(
                g(outlet, line[0], line[1]),
            );
        assert(s[k] == g(outlet, line[k], line[k + 1]));
        law_infinity_is_greatest(s[0]);
        assert(s[k].less(crate::nearest::out_of_reach()));
        if at == 0 {
            assert(!s[k].less(s[0]));
        }
    }
    if !f(line.last(), outlet).at_most(f(line.first(), outlet)) && (forall|k: int|
        0 < k < line.len() - 1 ==> g(outlet, line[0], line[1]).at_most(
            #[trigger] g(outlet, line[k], line[k + 1]),
        )) {
        if at > 0 {
            assert(s[at] == g(outlet, line[at], line[at + 1]));
            assert(s[0].at_most(s[at]));
        }
    }
}

/// A truncated line keeps the line's own vertices, from one of its ends up to the
/// segment that is the first of those nearest to the outlet, and the outlet after
/// them.
pub proof fn law_truncated_line_leaves_at_the_nearest_segment<S, P>(
    to_segment: S,
    to_point: P,
    g: spec_fn(Coord, Coord, Coord) -> Scalar,
    line: Seq<Coord>,
    outlet: Coord,
    others: Seq<Shape>,
    cut: Seq<Coord>,
    k: int,
) where S: Fn(Coord, Coord, Coord) -> Scalar, P: Fn(Coord, Coord) -> Scalar
    requires
        measures_segments(to_segment, g),
        line.len() >= 2,
        is_cut(to_segment, to_point, line, outlet, others, cut),
        0 <= k < line.len() - 1,
        g(outlet, line[k], line[k + 1]).less(Scalar { bits: 0x7ff0_0000_0000_0000 }),
        forall|j: int|
            0 <= j < line.len() - 1 ==> !(#[trigger] g(outlet, line[j], line[j + 1])).less(
                g(outlet, line[k], line[k + 1]),
            ),
        forall|j: int|
            0 <= j < k ==> !(#[trigger] g(outlet, line[j], line[j + 1])).at_most(
                g(outlet, line[k], line[k + 1]),
            ),
    ensures
        cut == line.take(k + 1).push(outlet) || cut == line.skip(k + 1).reverse().push(outlet),
{
    let d = choose|distances: LineDistances| #[trigger]
        measured(to_segment, to_point, line, outlet, ends_of(others), distances) && cut
            == truncated(line, outlet, distances, others.len() == 0);
    let s = d.segments@;
    assert forall|j: int| 0 <= j < s.len() implies #[trigger] s[j] == g(
        outlet,
        line[j],
        line[j + 1],
    ) by {}
    assert(crate::nearest::is_nearest(s, k)) by {
        assert forall|j: int| 0 <= j < s.len() implies !(#[trigger] s[j]).less(s[k]) by {
            assert(!g(outlet, line[j], line[j + 1]).less(g(outlet, line[k], line[k + 1])));
        }
        assert forall|j: int| 0 <= j < k implies !(#[trigger] s[j]).at_most(s[k]) by {
            assert(!g(outlet, line[j], line[j + 1]).at_most(g(outlet, line[k], line[k + 1])));
        }
    }
    law_nearest_exists(s);
    crate::nearest::law_nearest_is_unique(s, nearest(s)->0, k);
}

/// Each line of a reach is cut by itself: where every line has a vertex, the result
/// has a line for each, in order, and that is the cut of it. One line stands for
/// itself.
pub proof fn law_reach_is_cut_line_by_line<S, P>(
    to_segment: S,
    to_point: P,
    reach: Shape,
    outlet: Coord,
    others: Seq<Shape>,
    result: Shape,
) where S: Fn(Coord, Coord, Coord) -> Scalar, P: Fn(Coord, Coord) -> Scalar
    requires
        is_truncated_reach(to_segment, to_point, reach, outlet, others, result),
        forall|i: int| 0 <= i < lines_of(reach).len() ==> (#[trigger] lines_of(reach)[i]).len() > 0,
    ensures
        lines_of(result).len() == lines_of(reach).len(),
        forall|i: int|
            0 <= i < lines_of(result).len() ==> is_cut(
                to_segment,
                to_point,
                lines_of(reach)[i],
                outlet,
                others,
                #[trigger] lines_of(result)[i],
            ),
        lines_of(result).len() == 1 ==> result is Line,
        reach is Other ==> result == reach,
{
    match reach {
        Shape::Line(line) => {
            assert(lines_of(reach)[0] == line);
        },
        Shape::Lines(lines) => {
            let cuts = choose|cuts: Seq<Seq<Coord>>|
                {
                    &&& cuts.len() == lines.len()
                    &&& forall|i: int|
                        0 <= i < lines.len() ==> is_cut(
                            to_segment,
                            to_point,
                            lines[i],
                            outlet,
                            others,
                            #[trigger] cuts[i],
                        )
                    &&& result == gathered(#[trigger] without_empty(cuts))
                };
            assert forall|i: int| 0 <= i < cuts.len() implies (#[trigger] cuts[i]).len() > 0 by {
                assert(lines_of(reach)[i].len() > 0);
                assert(is_cut(to_segment, to_point, lines[i], outlet, others, cuts[i]));
            }
            lemma_filter_all(cuts, |cut: Seq<Coord>| cut.len() > 0);
        },
        Shape::Other(_) => {},
    }
}

/// Where there are other reaches, but none of their ends is within any distance of
/// the line's end, the truncated line begins at the line's start. A line without a
/// segment stays as it is.
pub proof fn law_line_begins_at_its_start_otherwise<S, P>(
    to_segment: S,
    to_point: P,
    f: spec_fn(Coord, Coord) -> Scalar,
    line: Seq<Coord>,
    outlet: Coord,
    others: Seq<Shape>,
    cut: Seq<Coord>,
) where S: Fn(Coord, Coord, Coord) -> Scalar, P: Fn(Coord, Coord) -> Scalar
    requires
        measures_points(to_point, f),
        is_cut(to_segment, to_point, line, outlet, others, cut),
    ensures
        line.len() < 2 ==> cut == line,
        line.len() >= 2 && others.len() > 0 && (forall|end: Coord| #[trigger]
            is_end_of(end, others) ==> !f(line.last(), end).less(
                Scalar { bits: 0x7ff0_0000_0000_0000 },
            )) ==> cut.first() == line.first(),
{
    if line.len() >= 2 && others.len() > 0 && (forall|end: Coord| #[trigger]
        is_end_of(end, others) ==> !f(line.last(), end).less(
            Scalar { bits: 0x7ff0_0000_0000_0000 },
        )) {
        let ends = ends_of(others);
        let d = choose|distances: LineDistances| #[trigger]
            measured(to_segment, to_point, line, outlet, ends, distances) && cut == truncated(
                line,
                outlet,
                distances,
                others.len() == 0,
            );
        let end = d.end_to_others@;
        law_least_is_a_bound(d.start_to_others@);
        law_least_is_a_bound(end);
        law_nearest_exists(d.segments@);
        law_infinity_is_greatest(least(d.start_to_others@));
        law_infinity_is_greatest(least(end));
        if end.contains(least(end)) {
            let m = choose|m: int| 0 <= m < end.len() && end[m] == least(end);
            assert(ends.contains(ends[m]));
            law_ends_are_the_ends_of_all_lines(others, ends[m]);
            assert(is_end_of(ends[m], others));
            assert(end[m] == f(line.last(), ends[m]));
        }
        let at = cut_segment(d);
        assert(line.take(at + 1).push(outlet).first() == line.first());
    }
}

} // verus!
