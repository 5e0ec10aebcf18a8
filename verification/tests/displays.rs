use incline_watershed::fabric::Level;
use incline_watershed::fabric::SnapId;
use incline_watershed::fabric::StemRole;
use incline_watershed::fabric::UnitId;
use incline_watershed::geojson::display_tolerance;
use incline_watershed::geojson::display_watershed;
use incline_watershed::geojson::features_of;
use incline_watershed::geojson::line_json;
use incline_watershed::geojson::multipolygon_json;
use incline_watershed::geojson::reach_features;
use incline_watershed::geojson::ring_json;
use incline_watershed::geojson::LineGeometry;
use incline_watershed::geometry::Coord;
use incline_watershed::geometry::Geometry;
use incline_watershed::geometry::GeometryKind;
use incline_watershed::geometry::MultiPolygon;
use incline_watershed::geometry::Polygon;
use incline_watershed::measure::ChannelLengthKm;
use incline_watershed::network::DrainageReach;
use incline_watershed::network::UpstreamReaches;
use incline_watershed::scalar::Scalar;
use incline_watershed::staged::SelectedLevel;

fn scalar(v: f64) -> Scalar {
    Scalar::from_bits(v.to_bits())
}

fn float(s: Scalar) -> f64 {
    f64::from_bits(s.bits)
}

fn line(points: &[(f64, f64)]) -> Vec<Coord> {
    points.iter().map(|p| Coord { x: scalar(p.0), y: scalar(p.1) }).collect()
}

fn path(points: &[(f64, f64)]) -> Geometry {
    Geometry::LineString(line(points))
}

fn round(v: Scalar) -> Scalar {
    scalar((float(v) * 1e6).round() / 1e6)
}

fn drawn(geometry: Option<LineGeometry>) -> Vec<Vec<(f64, f64)>> {
    let pairs = |l: &Vec<Coord>| -> Vec<(f64, f64)> {
        l.iter().map(|c| (float(c.x), float(c.y))).collect()
    };
    match geometry {
        Some(LineGeometry::LineString(l)) => vec![pairs(&l)],
        Some(LineGeometry::MultiLineString(ls)) => {
            assert!(ls.len() > 1);
            ls.iter().map(pairs).collect()
        }
        None => vec![],
    }
}

#[test]
fn coordinates_are_rounded() {
    let ring = ring_json(&line(&[(1.23456789, -0.0000004), (2.0, 3.5)]), &round);
    assert_eq!(float(ring[0].x), 1.234568);
    assert_eq!(float(ring[0].y), 0.0);
    assert_eq!(ring[1], line(&[(2.0, 3.5)])[0]);
}

#[test]
fn lines_without_a_vertex_are_not_drawn() {
    assert_eq!(drawn(line_json(&path(&[(1.0, 2.0)]), &round)), vec![vec![(1.0, 2.0)]]);
    assert!(drawn(line_json(&path(&[]), &round)).is_empty());
    assert!(drawn(line_json(&Geometry::Other(GeometryKind::Point), &round)).is_empty());
    let lines = |ls: Vec<Vec<Coord>>| drawn(line_json(&Geometry::MultiLineString(ls), &round));
    assert!(lines(vec![]).is_empty());
    assert!(lines(vec![line(&[]), line(&[])]).is_empty());
    assert_eq!(lines(vec![line(&[]), line(&[(1.0, 2.0)])]), vec![vec![(1.0, 2.0)]]);
    assert_eq!(
        lines(vec![line(&[(1.0, 2.0)]), line(&[]), line(&[(3.0, 4.0)])]),
        vec![vec![(1.0, 2.0)], vec![(3.0, 4.0)]]
    );
}

fn square() -> MultiPolygon {
    MultiPolygon {
        polygons: vec![Polygon {
            exterior: line(&[(0.0, 0.0), (10.0, 0.0), (10.0, 10.0), (0.0, 10.0), (0.0, 0.0)]),
            interiors: vec![
                line(&[(1.0, 1.0), (2.0, 1.0), (2.0, 2.0), (1.0, 1.0)]),
                line(&[(3.0, 3.0), (4.0, 3.0), (4.0, 4.0), (3.0, 3.0)]),
            ],
        }],
    }
}

#[test]
fn the_exterior_ring_comes_first() {
    let rings = multipolygon_json(&square(), &round);
    assert_eq!(rings.len(), 1);
    assert_eq!(rings[0].len(), 3);
    assert_eq!(rings[0][0], square().polygons[0].exterior);
    assert_eq!(rings[0][1], square().polygons[0].interiors[0]);
    assert_eq!(rings[0][2], square().polygons[0].interiors[1]);
    assert!(multipolygon_json(&MultiPolygon { polygons: vec![] }, &round).is_empty());
}

#[test]
fn the_boundary_is_shown_in_full() {
    assert_eq!(float(display_tolerance(scalar(1e6))), 0.0);
    let never = |_: &MultiPolygon, _: Scalar| -> MultiPolygon { panic!("nothing to simplify") };
    let shown = display_watershed(scalar(1e6), &square(), &never);
    assert_eq!(shown.polygons[0].exterior, square().polygons[0].exterior);
    assert_eq!(shown.polygons[0].interiors, square().polygons[0].interiors);
}

fn reach(id: i64, unit_id: i64, role: Option<StemRole>, geometry: Geometry) -> DrainageReach {
    DrainageReach::new(
        SnapId::new(id).unwrap(),
        UnitId::new(unit_id).unwrap(),
        role,
        hfx::Weight::new(1.0).unwrap(),
        ChannelLengthKm::new(scalar(id as f64 / 2.0)),
        geometry,
        vec![],
    )
}

fn network() -> UpstreamReaches {
    UpstreamReaches::new(
        UnitId::new(7).unwrap(),
        SelectedLevel::from_proven_level(Level::new(0).unwrap()),
        vec![
            reach(1, 5, Some(StemRole::Tributary), path(&[(0.0, 0.0), (2.0, 2.0)])),
            reach(2, 6, None, Geometry::Other(GeometryKind::Point)),
            reach(3, 7, Some(StemRole::Mainstem), path(&[(2.0, 2.0), (5.0, 5.0), (8.0, 8.0)])),
        ],
    )
}

fn to_point(a: Coord, b: Coord) -> Scalar {
    let (dx, dy) = (float(a.x) - float(b.x), float(a.y) - float(b.y));
    scalar(dx * dx + dy * dy)
}

fn to_segment(p: Coord, a: Coord, b: Coord) -> Scalar {
    let middle = Coord {
        x: scalar((float(a.x) + float(b.x)) / 2.0),
        y: scalar((float(a.y) + float(b.y)) / 2.0),
    };
    to_point(p, middle)
}

#[test]
fn reaches_without_a_line_are_not_shown() {
    let features = features_of(&network(), None, &path(&[]), &round);
    assert_eq!(features.len(), 2);
    assert_eq!(features[0].unit_id.get(), 5);
    assert_eq!(features[0].snap_id.get(), 1);
    assert_eq!(features[0].stem_role.as_deref(), Some("tributary"));
    assert_eq!(float(features[0].length_km), 0.5);
    assert_eq!(features[1].stem_role.as_deref(), Some("mainstem"));
    let cut = features_of(&network(), Some(2), &path(&[]), &round);
    assert_eq!(cut.len(), 1);
}

#[test]
fn the_terminal_reach_is_shown_cut() {
    let outlet = Coord { x: scalar(5.5), y: scalar(5.25) };
    let clip = |shapes: &Vec<Vec<Vec<Coord>>>, paths: &Vec<Vec<Coord>>| {
        assert_eq!(shapes.len(), 1);
        assert_eq!(shapes[0][0].len(), 4);
        paths.clone()
    };
    let features = reach_features(
        &network(),
        UnitId::new(7).unwrap(),
        outlet,
        &square(),
        &to_segment,
        &to_point,
        &clip,
        &round,
    );
    assert_eq!(features.len(), 2);
    let mut features = features.into_iter();
    assert_eq!(
        drawn(Some(features.next().unwrap().geometry)),
        vec![vec![(0.0, 0.0), (2.0, 2.0)]]
    );
    assert_eq!(
        drawn(Some(features.next().unwrap().geometry)),
        vec![vec![(2.0, 2.0), (5.0, 5.0), (5.5, 5.25)]]
    );
}

#[test]
fn a_network_without_lines_shows_nothing() {
    let never = |_: &Vec<Vec<Vec<Coord>>>, _: &Vec<Vec<Coord>>| -> Vec<Vec<Coord>> {
        panic!("nothing to clip")
    };
    let features = reach_features(
        &UpstreamReaches::new(
            UnitId::new(7).unwrap(),
            SelectedLevel::from_proven_level(Level::new(0).unwrap()),
            vec![reach(2, 6, None, Geometry::Other(GeometryKind::Point))],
        ),
        UnitId::new(7).unwrap(),
        line(&[(1.0, 1.0)])[0],
        &square(),
        &to_segment,
        &to_point,
        &never,
        &round,
    );
    assert!(features.is_empty());
}
