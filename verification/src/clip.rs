//! Clipping reaches and watersheds.
//!
//! The overlay operations themselves are supplied by the caller. This module
//! decides what is handed to them and what becomes of their results.
use vstd::prelude::*;

use crate::geometry::copy_line;
use crate::geometry::lemma_filter_empty;
use crate::geometry::lemma_filter_push;
use crate::geometry::lemma_lines_view_push;
use crate::geometry::lines_view;
use crate::geometry::multipolygon_to_shapes;
use crate::geometry::polygons_of;
use crate::geometry::shapes_of;
use crate::geometry::shapes_to_multipolygon;
use crate::geometry::shapes_view;
use crate::geometry::Coord;
use crate::geometry::Geometry;
use crate::geometry::GeometryKind;
use crate::geometry::MultiPolygon;
use crate::geometry::Rings;
use crate::geometry::Shape;
use crate::truncate::gather_lines;
use crate::truncate::gathered;
use crate::truncate::lines_of;

verus! {

/// The lines that have a segment.
pub open spec fn with_segments(lines: Seq<Seq<Coord>>) -> Seq<Seq<Coord>> {
    lines.filter(|line: Seq<Coord>| line.len() >= 2)
}

/// The lines of a reach that can be clipped.
pub open spec fn clip_paths(reach: Shape) -> Seq<Seq<Coord>> {
    match reach {
        Shape::Line(line) => if line.len() < 2 {
            Seq::empty()
        } else {
            seq![line]
        },
        Shape::Lines(lines) => with_segments(lines),
        Shape::Other(_) => Seq::empty(),
    }
}

/// The geometry of the lines that clipping left: an empty line where it left
/// none, and a single line where it left one.
pub open spec fn clipped_shape(lines: Seq<Seq<Coord>>) -> Shape {
    if lines.len() == 0 {
        Shape::Line(Seq::empty())
    } else {
        gathered(lines)
    }
}

/// The geometry of the lines that clipping left.
pub fn clipped_geometry(lines: Vec<Vec<Coord>>) -> (r: Geometry)
    ensures
        r@ == clipped_shape(lines_view(lines@)),
{
    if lines.len() == 0 {
        let r = Geometry::LineString(Vec::new());
        assert(r@->Line_0 =~= Seq::<Coord>::empty());
        r
    } else {
        gather_lines(lines)
    }
}

/// The lines of a reach that can be clipped.
pub fn paths_to_clip(reach: &Geometry) -> (r: Vec<Vec<Coord>>)
    ensures
        lines_view(r@) == clip_paths(reach@),
{
    let mut paths: Vec<Vec<Coord>> = Vec::new();
    match reach {
        Geometry::LineString(line) => {
            if line.len() >= 2 {
                let path = copy_line(line);
                paths.push(path);
            }
            assert(lines_view(paths@) =~= clip_paths(reach@));
        },
        Geometry::MultiLineString(lines) => {
            let ghost all = lines_view(lines@);
            let ghost p = |line: Seq<Coord>| line.len() >= 2;
            proof {
                lemma_filter_empty(p);
                assert(all.take(0) =~= Seq::<Seq<Coord>>::empty());
            }
            for i in 0..lines.len()
                invariant
                    all == lines_view(lines@),
                    p == (|line: Seq<Coord>| line.len() >= 2),
                    lines_view(paths@) =~= all.take(i as int).filter(p),
            {
                proof {
                    assert(all.take(i + 1) =~= all.take(i as int).push(all[i as int]));
                    lemma_filter_push(all.take(i as int), all[i as int], p);
                }
                if lines[i].len() >= 2 {
                    let path = copy_line(&lines[i]);
                    proof {
                        lemma_lines_view_push(paths@, path);
                    }
                    paths.push(path);
                }
            }
            assert(all.take(all.len() as int) =~= all);
        },
        Geometry::Other(_) => {
            assert(lines_view(paths@) =~= clip_paths(reach@));
        },
    }
    paths
}

/// `result` is what `clip` leaves of `reach` inside `shapes`. Where there is no
/// shape nothing is inside, and nothing is left. A reach without a segment has
/// nothing to clip and stays as it is.
pub open spec fn is_clipped<C>(
    clip: C,
    shapes: Vec<Vec<Vec<Coord>>>,
    reach: Shape,
    result: Shape,
) -> bool where C: Fn(&Vec<Vec<Vec<Coord>>>, &Vec<Vec<Coord>>) -> Vec<Vec<Coord>> {
    if clip_paths(reach).len() == 0 {
        result == reach
    } else if shapes@.len() == 0 {
        result == Shape::Line(Seq::empty())
    } else {
        exists|paths: Vec<Vec<Coord>>, lines: Vec<Vec<Coord>>|
            {
                &&& lines_view(paths@) == clip_paths(reach)
                &&& #[trigger] call_ensures(clip, (&shapes, &paths), lines)
                &&& result == clipped_shape(lines_view(lines@))
            }
    }
}

/// Clips a reach to the watershed.
///
/// Only what lies inside the shapes or on their boundary is kept.
/// `clip(shapes, paths)` finds that for the lines of the reach that have a
/// segment; a watershed without shapes has nothing inside. A reach without a
/// segment has nothing to clip and stays as it is.
pub fn clip_reach_geometry<C>(
    reach: &Geometry,
    shapes: &Vec<Vec<Vec<Coord>>>,
    clip: &C,
) -> (r: Geometry) where C: Fn(&Vec<Vec<Vec<Coord>>>, &Vec<Vec<Coord>>) -> Vec<Vec<Coord>>
    requires
        forall|s: &Vec<Vec<Vec<Coord>>>, p: &Vec<Vec<Coord>>| call_requires(clip, (s, p)),
    ensures
        is_clipped(*clip, *shapes, reach@, r@),
{
    let paths = paths_to_clip(reach);
    assert(paths@.len() == lines_view(paths@).len());
    if paths.len() == 0 {
        return reach.clone();
    }
    if shapes.len() == 0 {
        let nothing: Vec<Vec<Coord>> = Vec::new();
        assert(lines_view(nothing@).len() == 0);
        return clipped_geometry(nothing);
    }
    let lines = clip(shapes, &paths);
    clipped_geometry(lines)
}

/// `result` is the part of `polygons` that `intersect` leaves upstream of
/// `outlet` for a stream along the segment from `from` to `to`, or all of them
/// where it leaves nothing.
pub open spec fn is_sliced<I>(
    intersect: I,
    polygons: Seq<Rings>,
    outlet: Coord,
    from: Coord,
    to: Coord,
    result: Seq<Rings>,
) -> bool where I: Fn(&Vec<Vec<Vec<Coord>>>, Coord, Coord, Coord) -> Vec<Vec<Vec<Coord>>> {
    exists|shapes: Vec<Vec<Vec<Coord>>>, sliced: Vec<Vec<Vec<Coord>>>|
        {
            &&& shapes_view(shapes@) == shapes_of(polygons)
            &&& #[trigger] call_ensures(intersect, (&shapes, outlet, from, to), sliced)
            &&& result == if sliced@.len() == 0 {
                polygons
            } else {
                polygons_of(shapes_view(sliced@))
            }
        }
}

/// Slices a watershed at the outlet, across a stream along the segment from `from`
/// to `to`.
///
/// `intersect(shapes, outlet, from, to)` is the part of the shapes on the upstream
/// side of the line through the outlet that is perpendicular to the segment.
/// Where it is empty the watershed stays whole.
pub fn slice_watershed_with_dir<I>(
    polygons: &MultiPolygon,
    outlet: Coord,
    from: Coord,
    to: Coord,
    intersect: &I,
) -> (r: MultiPolygon) where
    I: Fn(&Vec<Vec<Vec<Coord>>>, Coord, Coord, Coord) -> Vec<Vec<Vec<Coord>>>,

    requires
        forall|s: &Vec<Vec<Vec<Coord>>>, o: Coord, a: Coord, b: Coord|
            call_requires(intersect, (s, o, a, b)),
    ensures
        is_sliced(*intersect, polygons@, outlet, from, to, r@),
{
    let shapes = multipolygon_to_shapes(polygons);
    let sliced = intersect(&shapes, outlet, from, to);
    if sliced.len() == 0 {
        polygons.clone()
    } else {
        shapes_to_multipolygon(&sliced)
    }
}

// ---- what is handed over, and what is kept ----

/// Every line of a reach that has a segment is handed to the overlay, in order, and
/// nothing else.
pub proof fn law_every_segment_is_clipped(
    lines: Seq<Seq<Coord>>,
    line: Seq<Coord>,
    kind: GeometryKind,
)
    ensures
        clip_paths(Shape::Other(kind)).len() == 0,
        line.len() < 2 ==> clip_paths(Shape::Line(line)).len() == 0,
        line.len() >= 2 ==> clip_paths(Shape::Line(line)) == seq![line],
        clip_paths(Shape::Lines(Seq::empty())).len() == 0,
        line.len() < 2 ==> clip_paths(Shape::Lines(lines.push(line))) == clip_paths(
            Shape::Lines(lines),
        ),
        line.len() >= 2 ==> clip_paths(Shape::Lines(lines.push(line))) == clip_paths(
            Shape::Lines(lines),
        ).push(line),
{
    let p = |line: Seq<Coord>| line.len() >= 2;
    lemma_filter_empty(p);
    lemma_filter_push(lines, line, p);
}

/// Every line that the overlay leaves is kept, in order; one of them stands for
/// itself, and where it leaves none an empty line remains.
pub proof fn law_clipped_lines_are_kept(lines: Seq<Seq<Coord>>)
    ensures
        lines.len() > 0 ==> lines_of(clipped_shape(lines)) == lines,
        lines.len() == 1 ==> clipped_shape(lines) is Line,
        lines.len() > 1 ==> clipped_shape(lines) is Lines,
        lines.len() == 0 ==> lines_of(clipped_shape(lines)) == seq![Seq::<Coord>::empty()],
{
    if lines.len() == 1 {
        assert(lines_of(clipped_shape(lines)) =~= lines);
    }
}

/// Where the overlay keeps of paths inside shapes what `inside` says, clipping keeps
/// that of the reach's lines with a segment. Nothing is inside no shapes, and a
/// reach without a segment stays as it is.
pub proof fn law_reach_keeps_what_is_inside<C>(
    clip: C,
    inside: spec_fn(Seq<Seq<Seq<Coord>>>, Seq<Seq<Coord>>) -> Seq<Seq<Coord>>,
    shapes: Vec<Vec<Vec<Coord>>>,
    reach: Shape,
    result: Shape,
) where C: Fn(&Vec<Vec<Vec<Coord>>>, &Vec<Vec<Coord>>) -> Vec<Vec<Coord>>
    requires
        forall|s: Vec<Vec<Vec<Coord>>>, p: Vec<Vec<Coord>>, r: Vec<Vec<Coord>>| #[trigger]
            call_ensures(clip, (&s, &p), r) ==> lines_view(r@) == inside(
                shapes_view(s@),
                lines_view(p@),
            ),
        is_clipped(clip, shapes, reach, result),
    ensures
        (forall|j: int| 0 <= j < lines_of(reach).len() ==> (#[trigger] lines_of(reach)[j]).len() < 2)
            ==> result == reach,
        (exists|j: int| 0 <= j < lines_of(reach).len() && (#[trigger] lines_of(reach)[j]).len() >= 2)
            ==> {
            let kept = inside(
                shapes_view(shapes@),
                lines_of(reach).filter(|line: Seq<Coord>| line.len() >= 2),
            );
            if shapes@.len() == 0 || kept.len() == 0 {
                lines_of(result) == seq![Seq::<Coord>::empty()]
            } else {
                lines_of(result) == kept
            }
        },
{
    let p = |line: Seq<Coord>| line.len() >= 2;
    let all = lines_of(reach);
    let paths = clip_paths(reach);
    assert(paths == all.filter(p)) by {
        if let Shape::Line(line) = reach {
            lemma_filter_empty(p);
            lemma_filter_push(Seq::<Seq<Coord>>::empty(), line, p);
            assert(all =~= Seq::<Seq<Coord>>::empty().push(line));
            if line.len() >= 2 {
                assert(all.filter(p) =~= seq![line]);
            }
        } else if let Shape::Other(_) = reach {
            lemma_filter_empty(p);
            assert(all =~= Seq::<Seq<Coord>>::empty());
        }
    }
    lemma_some_pass(all, p);
    if paths.len() > 0 && shapes@.len() > 0 {
        let (handed, left) = choose|paths: Vec<Vec<Coord>>, lines: Vec<Vec<Coord>>|
            {
                &&& lines_view(paths@) == clip_paths(reach)
                &&& #[trigger] call_ensures(clip, (&shapes, &paths), lines)
                &&& result == clipped_shape(lines_view(lines@))
            };
        law_clipped_lines_are_kept(lines_view(left@));
    }
}

/// A filter keeps something exactly where something passes it.
proof fn lemma_some_pass(lines: Seq<Seq<Coord>>, p: spec_fn(Seq<Coord>) -> bool)
    ensures
        lines.filter(p).len() == 0 <==> forall|j: int|
            0 <= j < lines.len() ==> !p(#[trigger] lines[j]),
    decreases lines.len(),
{
    if lines.len() == 0 {
        lemma_filter_empty(p);
        assert(lines =~= Seq::<Seq<Coord>>::empty());
    } else {
        let rest = lines.drop_last();
        let last = lines.len() - 1;
        lemma_some_pass(rest, p);
        assert(rest.push(lines.last()) =~= lines);
        lemma_filter_push(rest, lines.last(), p);
        if lines.filter(p).len() == 0 {
            assert forall|j: int| 0 <= j < lines.len() implies !p(#[trigger] lines[j]) by {
                if j < last {
                    assert(rest[j] == lines[j]);
                }
            }
        }
        if forall|j: int| 0 <= j < lines.len() ==> !p(#[trigger] lines[j]) {
            assert forall|j: int| 0 <= j < rest.len() implies !p(#[trigger] rest[j]) by {
                assert(rest[j] == lines[j]);
            }
            assert(!p(lines[last]));
        }
    }
}

/// Where the overlay leaves of shapes upstream of an outlet what `upstream` says,
/// slicing leaves the polygons of that, and the whole where that is nothing.
pub proof fn law_slice_keeps_what_is_upstream<I>(
    intersect: I,
    upstream: spec_fn(Seq<Seq<Seq<Coord>>>, Coord, Coord, Coord) -> Seq<Seq<Seq<Coord>>>,
    polygons: Seq<Rings>,
    outlet: Coord,
    from: Coord,
    to: Coord,
    result: Seq<Rings>,
) where I: Fn(&Vec<Vec<Vec<Coord>>>, Coord, Coord, Coord) -> Vec<Vec<Vec<Coord>>>
    requires
        forall|s: Vec<Vec<Vec<Coord>>>, o: Coord, a: Coord, b: Coord, r: Vec<Vec<Vec<Coord>>>|
         #[trigger]
            call_ensures(intersect, (&s, o, a, b), r) ==> shapes_view(r@) == upstream(
                shapes_view(s@),
                o,
                a,
                b,
            ),
        is_sliced(intersect, polygons, outlet, from, to, result),
    ensures
        ({
            let left = upstream(shapes_of(polygons), outlet, from, to);
            if left.len() == 0 {
                result == polygons
            } else {
                result == polygons_of(left)
            }
        }),
{
    let (shapes, sliced) = choose|shapes: Vec<Vec<Vec<Coord>>>, sliced: Vec<Vec<Vec<Coord>>>|
        {
            &&& shapes_view(shapes@) == shapes_of(polygons)
            &&& #[trigger] call_ensures(intersect, (&shapes, outlet, from, to), sliced)
            &&& result == if sliced@.len() == 0 {
                polygons
            } else {
                polygons_of(shapes_view(sliced@))
            }
        };
    assert(shapes_view(sliced@).len() == sliced@.len());
}

} // verus!
