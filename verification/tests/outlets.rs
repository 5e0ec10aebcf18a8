use incline_watershed::fabric::Level;
use incline_watershed::fabric::SnapId;
use incline_watershed::fabric::UnitId;
use incline_watershed::geometry::Coord;
use incline_watershed::geometry::Geometry;
use incline_watershed::geometry::GeometryKind;
use incline_watershed::geometry::MultiPolygon;
use incline_watershed::geometry::Polygon;
use incline_watershed::measure::ChannelLengthKm;
use incline_watershed::nearest::find_greatest;
use incline_watershed::nearest::find_least;
use incline_watershed::nearest::find_nearest;
use incline_watershed::network::DrainageReach;
use incline_watershed::network::UpstreamReaches;
use incline_watershed::outlet::basin_length_km;
use incline_watershed::outlet::find_terminal_reach;
use incline_watershed::outlet::get_stream_direction_at_outlet;
use incline_watershed::outlet::other_reaches;
use incline_watershed::outlet::segments_of;
use incline_watershed::outlet::slice_watershed_at_outlet;
use incline_watershed::scalar::Scalar;
use incline_watershed::staged::SelectedLevel;
use incline_watershed::truncate::truncate_terminal_reach;

fn scalar(v: f64) -> Scalar {
    Scalar::from_bits(v.to_bits())
}

fn float(s: Scalar) -> f64 {
    f64::from_bits(s.bits)
}

fn coord(x: f64, y: f64) -> Coord {
    Coord { x: scalar(x), y: scalar(y) }
}

fn line(points: &[(f64, f64)]) -> Vec<Coord> {
    points.iter().map(|p| coord(p.0, p.1)).collect()
}

fn path(points: &[(f64, f64)]) -> Geometry {
    Geometry::LineString(line(points))
}

fn to_point(a: Coord, b: Coord) -> Scalar {
    let (dx, dy) = (float(a.x) - float(b.x), float(a.y) - float(b.y));
    scalar(dx * dx + dy * dy)
}

fn to_segment(p: Coord, a: Coord, b: Coord) -> Scalar {
    let (dx, dy) = (float(b.x) - float(a.x), float(b.y) - float(a.y));
    let len_sq = dx * dx + dy * dy;
    if len_sq == 0.0 {
        return to_point(p, a);
    }
    let t = ((float(p.x) - float(a.x)) * dx + (float(p.y) - float(a.y)) * dy) / len_sq;
    let t = t.clamp(0.0, 1.0);
    to_point(p, coord(float(a.x) + t * dx, float(a.y) + t * dy))
}

fn length(a: Coord, b: Coord) -> Scalar {
    scalar((float(b.x) - float(a.x)).hypot(float(b.y) - float(a.y)))
}

fn points(geometry: &Geometry) -> Vec<(f64, f64)> {
    match geometry {
        Geometry::LineString(l) => l.iter().map(|c| (float(c.x), float(c.y))).collect(),
        other => panic!("{other:?}"),
    }
}

fn truncate(reach: &Geometry, outlet: Coord, others: &Vec<&Geometry>) -> Geometry {
    truncate_terminal_reach(reach, outlet, others, &to_segment, &to_point)
}

#[test]
fn the_first_of_the_nearest_counts() {
    let d = |v: &[f64]| -> Vec<Scalar> { v.iter().map(|x| scalar(*x)).collect() };
    assert_eq!(find_nearest(&d(&[3.0, 1.0, 1.0, 2.0])), Some(1));
    assert_eq!(find_nearest(&d(&[f64::NAN, 4.0, f64::INFINITY])), Some(1));
    assert_eq!(find_nearest(&d(&[f64::NAN, f64::INFINITY])), None);
    assert_eq!(find_nearest(&d(&[])), None);
    assert_eq!(float(find_least(&d(&[3.0, f64::NAN, 2.0]))), 2.0);
    assert_eq!(float(find_least(&d(&[]))), f64::INFINITY);
    assert_eq!(float(find_greatest(&d(&[3.0, f64::NAN, 2.0]))), 3.0);
    assert_eq!(float(find_greatest(&d(&[]))), 0.0);
}

#[test]
fn a_reach_ends_at_the_outlet() {
    let reach = path(&[(0.0, 0.0), (10.0, 0.0), (20.0, 0.0)]);
    let outlet = coord(12.0, 0.5);
    let above = path(&[(-5.0, 0.0), (0.0, 0.0)]);
    assert_eq!(
        points(&truncate(&reach, outlet, &vec![&above])),
        vec![(0.0, 0.0), (10.0, 0.0), (12.0, 0.5)]
    );
    let below = path(&[(20.0, 0.0), (30.0, 0.0)]);
    assert_eq!(
        points(&truncate(&reach, outlet, &vec![&below])),
        vec![(20.0, 0.0), (12.0, 0.5)]
    );
}

#[test]
fn a_lone_reach_starts_far_from_the_outlet() {
    let outlet = coord(1.0, 0.0);
    // The nearest segment is the first one and the start is nearer: drawn from the far end.
    assert_eq!(
        points(&truncate(&path(&[(0.0, 0.0), (10.0, 0.0), (20.0, 0.0)]), outlet, &vec![])),
        vec![(20.0, 0.0), (10.0, 0.0), (1.0, 0.0)]
    );
    // The outlet lies on the last segment.
    assert_eq!(
        points(&truncate(&path(&[(0.0, 0.0), (0.5, 0.0), (20.0, 0.0)]), outlet, &vec![])),
        vec![(0.0, 0.0), (0.5, 0.0), (1.0, 0.0)]
    );
}

#[test]
fn others_without_a_vertex_leave_the_start_upstream() {
    let reach = path(&[(0.0, 0.0), (10.0, 0.0)]);
    let point = Geometry::Other(GeometryKind::Point);
    let empty = Geometry::MultiLineString(vec![line(&[])]);
    assert_eq!(
        points(&truncate(&reach, coord(1.0, 0.0), &vec![&point, &empty])),
        vec![(0.0, 0.0), (1.0, 0.0)]
    );
}

#[test]
fn a_reach_without_a_segment_is_not_truncated() {
    let outlet = coord(1.0, 0.0);
    assert_eq!(points(&truncate(&path(&[(5.0, 5.0)]), outlet, &vec![])), vec![(5.0, 5.0)]);
    assert_eq!(points(&truncate(&path(&[]), outlet, &vec![])), vec![]);
    assert!(matches!(
        truncate(&Geometry::Other(GeometryKind::Rect), outlet, &vec![]),
        Geometry::Other(GeometryKind::Rect)
    ));
}

#[test]
fn every_line_of_a_reach_is_truncated() {
    let outlet = coord(9.0, 1.0);
    let reach = Geometry::MultiLineString(vec![
        line(&[(0.0, 0.0), (10.0, 0.0)]),
        line(&[]),
        line(&[(0.0, 2.0), (10.0, 2.0)]),
    ]);
    match truncate(&reach, outlet, &vec![]) {
        Geometry::MultiLineString(lines) => {
            assert_eq!(lines.len(), 2);
            for l in lines {
                assert_eq!(l[l.len() - 1], outlet);
            }
        }
        other => panic!("{other:?}"),
    }
    let single = Geometry::MultiLineString(vec![line(&[]), line(&[(0.0, 0.0), (10.0, 0.0)])]);
    assert_eq!(points(&truncate(&single, outlet, &vec![])), vec![(0.0, 0.0), (9.0, 1.0)]);
    assert!(matches!(
        truncate(&Geometry::MultiLineString(vec![line(&[])]), outlet, &vec![]),
        Geometry::MultiLineString(lines) if lines.is_empty()
    ));
}

fn reach(id: i64, unit_id: i64, geometry: Geometry) -> DrainageReach {
    DrainageReach::new(
        SnapId::new(id).unwrap(),
        UnitId::new(unit_id).unwrap(),
        None,
        hfx::Weight::new(1.0).unwrap(),
        ChannelLengthKm::zero(),
        geometry,
        vec![],
    )
}

fn network(reaches: Vec<DrainageReach>) -> UpstreamReaches {
    UpstreamReaches::new(
        UnitId::new(1).unwrap(),
        SelectedLevel::from_proven_level(Level::new(0).unwrap()),
        reaches,
    )
}

#[test]
fn the_terminal_reach_is_the_terminal_units() {
    let net = network(vec![
        reach(1, 5, path(&[(0.0, 0.0), (1.0, 0.0)])),
        reach(2, 7, path(&[(9.0, 9.0), (8.0, 8.0)])),
        reach(3, 7, path(&[(0.0, 0.0), (0.0, 1.0)])),
    ]);
    let find = |unit: i64| {
        find_terminal_reach(&net, UnitId::new(unit).unwrap(), coord(0.0, 0.0), &to_point)
    };
    assert_eq!(find(7), Some(1));
    assert_eq!(find(5), Some(0));
    // No reach of unit 6: the first one with the nearest vertex.
    assert_eq!(find(6), Some(0));
}

#[test]
fn the_nearest_vertex_finds_the_terminal_reach() {
    let net = network(vec![
        reach(1, 5, Geometry::Other(GeometryKind::Point)),
        reach(2, 5, path(&[(5.0, 5.0)])),
        reach(3, 5, Geometry::MultiLineString(vec![line(&[(9.0, 9.0)]), line(&[(1.0, 1.0)])])),
    ]);
    let unit = UnitId::new(2).unwrap();
    assert_eq!(find_terminal_reach(&net, unit, coord(0.0, 0.0), &to_point), Some(2));
    assert_eq!(find_terminal_reach(&net, unit, coord(6.0, 6.0), &to_point), Some(1));
    let none = network(vec![reach(1, 5, Geometry::Other(GeometryKind::Point))]);
    assert_eq!(find_terminal_reach(&none, unit, coord(0.0, 0.0), &to_point), None);
    assert_eq!(find_terminal_reach(&network(vec![]), unit, coord(0.0, 0.0), &to_point), None);
}

#[test]
fn other_reaches_are_all_but_one() {
    let net = network(vec![
        reach(1, 5, path(&[(1.0, 0.0)])),
        reach(2, 5, path(&[(2.0, 0.0)])),
        reach(3, 5, path(&[(3.0, 0.0)])),
    ]);
    let firsts = |left_out: Option<usize>| -> Vec<f64> {
        other_reaches(&net, left_out).iter().map(|g| points(g)[0].0).collect()
    };
    assert_eq!(firsts(Some(1)), vec![1.0, 3.0]);
    assert_eq!(firsts(None), vec![1.0, 2.0, 3.0]);
    assert_eq!(firsts(Some(3)), vec![1.0, 2.0, 3.0]);
}

#[test]
fn the_stream_passes_the_outlet_on_the_nearest_segment() {
    let stream = path(&[(0.0, 0.0), (10.0, 0.0), (10.0, 1e-10), (10.0, 10.0)]);
    assert_eq!(segments_of(&stream).len(), 3);
    let direction = |outlet: Coord| {
        get_stream_direction_at_outlet(&stream, outlet, &length, &to_segment)
    };
    assert_eq!(direction(coord(5.0, 1.0)), Some((coord(0.0, 0.0), coord(10.0, 0.0))));
    assert_eq!(direction(coord(11.0, 5.0)), Some((coord(10.0, 1e-10), coord(10.0, 10.0))));
    let tiny = path(&[(0.0, 0.0), (1e-10, 0.0)]);
    assert_eq!(
        get_stream_direction_at_outlet(&tiny, coord(0.0, 0.0), &length, &to_segment),
        None
    );
    let lines = Geometry::MultiLineString(vec![
        line(&[(0.0, 0.0)]),
        line(&[(0.0, 3.0), (1.0, 3.0)]),
        line(&[(0.0, 1.0), (1.0, 1.0)]),
    ]);
    assert_eq!(
        get_stream_direction_at_outlet(&lines, coord(0.0, 0.0), &length, &to_segment),
        Some((coord(0.0, 1.0), coord(1.0, 1.0)))
    );
    assert_eq!(
        get_stream_direction_at_outlet(
            &Geometry::Other(GeometryKind::Point),
            coord(0.0, 0.0),
            &length,
            &to_segment
        ),
        None
    );
}

fn basin() -> MultiPolygon {
    MultiPolygon {
        polygons: vec![
            Polygon {
                exterior: line(&[(0.0, 0.0), (3.0, 0.0), (3.0, 4.0), (0.0, 0.0)]),
                interiors: vec![line(&[(100.0, 100.0), (101.0, 100.0), (100.0, 101.0)])],
            },
            Polygon {
                exterior: line(&[(0.0, 0.0), (1.0, 0.0), (0.0, 1.0), (0.0, 0.0)]),
                interiors: vec![],
            },
        ],
    }
}

#[test]
fn a_watershed_is_sliced_across_the_stream() {
    let intersect = |shapes: &Vec<Vec<Vec<Coord>>>, outlet: Coord, from: Coord, to: Coord| {
        assert_eq!(outlet, coord(5.0, 1.0));
        assert_eq!((from, to), (coord(0.0, 0.0), coord(10.0, 0.0)));
        shapes[..1].to_vec()
    };
    let sliced = slice_watershed_at_outlet(
        &basin(),
        coord(5.0, 1.0),
        &path(&[(0.0, 0.0), (10.0, 0.0)]),
        &length,
        &to_segment,
        &intersect,
    );
    assert_eq!(sliced.polygons.len(), 1);
    let whole = slice_watershed_at_outlet(
        &basin(),
        coord(5.0, 1.0),
        &path(&[]),
        &length,
        &to_segment,
        &intersect,
    );
    assert_eq!(whole.polygons.len(), 2);
}

#[test]
fn the_basin_is_as_long_as_its_farthest_point() {
    let km = |a: Coord, b: Coord| scalar(float(to_point(a, b)).sqrt());
    assert_eq!(float(basin_length_km(coord(0.0, 0.0), &basin(), &km)), 5.0);
    assert_eq!(
        float(basin_length_km(coord(0.0, 0.0), &MultiPolygon { polygons: vec![] }, &km)),
        0.0
    );
}
