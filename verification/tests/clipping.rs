use i_overlay::float::overlay::FloatOverlay;
use i_overlay::float::string_overlay::FloatStringOverlay;
use i_overlay::string::clip::ClipRule;
use incline_watershed::clip::clip_reach_geometry;
use incline_watershed::clip::slice_watershed_with_dir;
use incline_watershed::geometry::multipolygon_to_shapes;
use incline_watershed::geometry::shapes_to_multipolygon;
use incline_watershed::geometry::Coord;
use incline_watershed::geometry::Geometry;
use incline_watershed::geometry::GeometryKind;
use incline_watershed::geometry::MultiPolygon;
use incline_watershed::geometry::Polygon;
use incline_watershed::scalar::Scalar;

fn scalar(v: f64) -> Scalar {
    Scalar::from_bits(v.to_bits())
}

fn coord(x: f64, y: f64) -> Coord {
    Coord { x: scalar(x), y: scalar(y) }
}

fn xy(c: &Coord) -> [f64; 2] {
    [f64::from_bits(c.x.bits), f64::from_bits(c.y.bits)]
}

fn line(points: &[[f64; 2]]) -> Vec<Coord> {
    points.iter().map(|p| coord(p[0], p[1])).collect()
}

fn floats(lines: &Vec<Vec<Coord>>) -> Vec<Vec<[f64; 2]>> {
    lines.iter().map(|l| l.iter().map(xy).collect()).collect()
}

fn coords(lines: Vec<Vec<[f64; 2]>>) -> Vec<Vec<Coord>> {
    lines.iter().map(|l| line(l)).collect()
}

fn clip(shapes: &Vec<Vec<Vec<Coord>>>, paths: &Vec<Vec<Coord>>) -> Vec<Vec<Coord>> {
    let shapes: Vec<Vec<Vec<[f64; 2]>>> = shapes.iter().map(floats).collect();
    let overlay = FloatStringOverlay::with_shape_and_string(&shapes, &floats(paths));
    coords(overlay.clip_string_lines_with_solver(
        i_overlay::core::fill_rule::FillRule::NonZero,
        ClipRule { invert: false, boundary_included: true },
        i_overlay::core::solver::Solver::default(),
    ))
}

/// A square polygon [0, 10] x [0, 10]
fn square() -> Vec<Vec<Vec<Coord>>> {
    vec![vec![line(&[[0.0, 0.0], [10.0, 0.0], [10.0, 10.0], [0.0, 10.0]])]]
}

fn points(geometry: &Geometry) -> Vec<[f64; 2]> {
    match geometry {
        Geometry::LineString(l) => l.iter().map(xy).collect(),
        other => panic!("{other:?}"),
    }
}

#[test]
fn test_line_clipping_outside_polygon() {
    // A line that starts inside and extends outside to 15.0
    let reach = Geometry::LineString(line(&[[5.0, 5.0], [15.0, 5.0]]));
    let clipped = points(&clip_reach_geometry(&reach, &square(), &clip));
    assert_eq!(clipped.len(), 2);
    // The line should be clipped at x = 10.0
    assert_eq!(clipped[0], [5.0, 5.0]);
    assert_eq!(clipped[1], [10.0, 5.0]);
}

#[test]
fn test_completely_outside_line_is_removed() {
    // Completely outside
    let reach = Geometry::LineString(line(&[[15.0, 15.0], [20.0, 20.0]]));
    let clipped = points(&clip_reach_geometry(&reach, &square(), &clip));
    assert!(clipped.is_empty());
}

#[test]
fn several_parts_stay_several() {
    let reach = Geometry::MultiLineString(vec![
        line(&[[1.0, 1.0], [2.0, 1.0]]),
        line(&[[3.0, 3.0]]),
        line(&[[5.0, 5.0], [15.0, 5.0]]),
    ]);
    match clip_reach_geometry(&reach, &square(), &clip) {
        Geometry::MultiLineString(lines) => assert_eq!(lines.len(), 2),
        other => panic!("{other:?}"),
    }
}

#[test]
fn what_cannot_be_clipped_stays() {
    let never = |_: &Vec<Vec<Vec<Coord>>>, _: &Vec<Vec<Coord>>| -> Vec<Vec<Coord>> {
        panic!("nothing to clip")
    };
    let vertex = Geometry::LineString(line(&[[50.0, 50.0]]));
    assert_eq!(points(&clip_reach_geometry(&vertex, &square(), &never)), vec![[50.0, 50.0]]);
    assert!(matches!(
        clip_reach_geometry(&Geometry::Other(GeometryKind::Point), &square(), &never),
        Geometry::Other(GeometryKind::Point)
    ));
    assert!(matches!(
        clip_reach_geometry(&Geometry::MultiLineString(vec![]), &square(), &never),
        Geometry::MultiLineString(lines) if lines.is_empty()
    ));
}

#[test]
fn nothing_lies_inside_a_watershed_without_shapes() {
    let never = |_: &Vec<Vec<Vec<Coord>>>, _: &Vec<Vec<Coord>>| -> Vec<Vec<Coord>> {
        panic!("nothing to clip")
    };
    let reach = Geometry::LineString(line(&[[50.0, 50.0], [60.0, 60.0]]));
    assert!(points(&clip_reach_geometry(&reach, &vec![], &never)).is_empty());
    let parts = Geometry::MultiLineString(vec![
        line(&[[1.0, 1.0], [2.0, 1.0]]),
        line(&[[5.0, 5.0], [15.0, 5.0]]),
    ]);
    assert!(points(&clip_reach_geometry(&parts, &vec![], &never)).is_empty());
}

#[test]
fn test_polygon_intersection() {
    let poly_a = MultiPolygon {
        polygons: vec![Polygon {
            exterior: line(&[[0.0, 0.0], [10.0, 0.0], [10.0, 10.0], [0.0, 10.0], [0.0, 0.0]]),
            interiors: vec![],
        }],
    };
    let intersect = |shapes: &Vec<Vec<Vec<Coord>>>, _: Coord, _: Coord, _: Coord| {
        let shape_a: Vec<Vec<Vec<[f64; 2]>>> = shapes.iter().map(floats).collect();
        let shape_b: Vec<Vec<Vec<[f64; 2]>>> =
            vec![vec![vec![[5.0, 0.0], [15.0, 0.0], [15.0, 10.0], [5.0, 10.0]]]];
        let overlay = FloatOverlay::with_subj_and_clip(&shape_a, &shape_b);
        let result = overlay.overlay(i_overlay::core::overlay_rule::OverlayRule::Intersect, i_overlay::core::fill_rule::FillRule::NonZero);
        result.into_iter().map(coords).collect()
    };
    let result = slice_watershed_with_dir(
        &poly_a,
        coord(5.0, 5.0),
        coord(0.0, 0.0),
        coord(1.0, 0.0),
        &intersect,
    );
    assert!(!result.polygons.is_empty());
    for c in &result.polygons[0].exterior {
        let [x, y] = xy(c);
        assert!((4.999..=10.001).contains(&x) && (-0.001..=10.001).contains(&y));
    }
    let ring = &result.polygons[0].exterior;
    assert_eq!(ring[0], ring[ring.len() - 1]);
}

#[test]
fn a_slice_that_leaves_nothing_keeps_all() {
    let whole = shapes_to_multipolygon(&square());
    let nothing =
        |_: &Vec<Vec<Vec<Coord>>>, outlet: Coord, from: Coord, to: Coord| -> Vec<Vec<Vec<Coord>>> {
            assert_eq!(outlet, coord(3.0, 4.0));
            assert_eq!((from, to), (coord(0.0, 0.0), coord(1.0, 0.0)));
            vec![]
        };
    let sliced = slice_watershed_with_dir(
        &whole,
        coord(3.0, 4.0),
        coord(0.0, 0.0),
        coord(1.0, 0.0),
        &nothing,
    );
    assert_eq!(sliced.polygons.len(), 1);
    assert_eq!(sliced.polygons[0].exterior, whole.polygons[0].exterior);
}

#[test]
fn rings_are_closed_and_contours_open() {
    let shapes = vec![vec![
        line(&[[0.0, 0.0], [10.0, 0.0], [10.0, 10.0]]),
        line(&[[1.0, 1.0], [2.0, 1.0], [2.0, 2.0], [1.0, 2.0]]),
    ]];
    let polygons = shapes_to_multipolygon(&shapes);
    assert_eq!(polygons.polygons.len(), 1);
    assert_eq!(polygons.polygons[0].exterior.len(), 4);
    assert_eq!(polygons.polygons[0].interiors[0].len(), 5);
    assert_eq!(multipolygon_to_shapes(&polygons), shapes);
}

#[test]
fn degenerate_contours_are_dropped() {
    let shapes = vec![
        vec![],
        vec![line(&[[0.0, 0.0], [1.0, 0.0]])],
        vec![
            line(&[[0.0, 0.0], [10.0, 0.0], [10.0, 10.0], [0.0, 0.0]]),
            line(&[[1.0, 1.0], [2.0, 1.0]]),
        ],
    ];
    let polygons = shapes_to_multipolygon(&shapes);
    assert_eq!(polygons.polygons.len(), 1);
    assert_eq!(polygons.polygons[0].exterior.len(), 4);
    assert!(polygons.polygons[0].interiors.is_empty());
}

#[test]
fn a_ring_that_starts_with_no_number_is_closed_twice() {
    let contour = line(&[[f64::NAN, 0.0], [1.0, 0.0], [1.0, 1.0]]);
    let ring = &shapes_to_multipolygon(&vec![vec![contour.clone(), contour]]).polygons[0];
    assert_eq!(ring.exterior.len(), 5);
    assert_eq!(ring.interiors[0].len(), 5);
    assert!(ring.exterior[3].x.is_nan() && ring.exterior[4].x.is_nan());
    let outside = geo::Polygon::new(
        geo::LineString::from(vec![(f64::NAN, 0.0), (1.0, 0.0), (1.0, 1.0), (f64::NAN, 0.0)]),
        vec![],
    );
    assert_eq!(outside.exterior().0.len(), 5);
}

#[test]
fn the_two_zeros_close_a_ring() {
    let shapes = vec![vec![line(&[[0.0, 0.0], [1.0, 0.0], [1.0, 1.0], [-0.0, 0.0]])]];
    assert_eq!(shapes_to_multipolygon(&shapes).polygons[0].exterior.len(), 4);
    let polygons = MultiPolygon {
        polygons: vec![Polygon { exterior: line(&[[7.0, 7.0]]), interiors: vec![line(&[])] }],
    };
    assert_eq!(multipolygon_to_shapes(&polygons), vec![vec![line(&[[7.0, 7.0]]), line(&[])]]);
}
