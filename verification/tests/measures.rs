use geo::Geodesic;
use geo::GeodesicArea;
use geo::Length;
use incline_watershed::geometry::Coord;
use incline_watershed::geometry::Geometry;
use incline_watershed::geometry::GeometryKind;
use incline_watershed::geometry::MultiPolygon;
use incline_watershed::geometry::Polygon;
use incline_watershed::measure::geodesic_channel_length;
use incline_watershed::measure::geodesic_perimeter;
use incline_watershed::measure::geodesic_perimeter_multi;
use incline_watershed::measure::sum_lengths;
use incline_watershed::measure::ChannelLengthError;
use incline_watershed::measure::ChannelLengthKm;
use incline_watershed::measure::PerimeterKm;
use incline_watershed::measure::WatershedPerimeterError;
use incline_watershed::scalar::Scalar;

fn scalar(v: f64) -> Scalar {
    Scalar::from_bits(v.to_bits())
}

fn float(s: Scalar) -> f64 {
    f64::from_bits(s.bits)
}

fn coord(x: f64, y: f64) -> Coord {
    Coord { x: scalar(x), y: scalar(y) }
}

fn line(points: &[(f64, f64)]) -> Vec<Coord> {
    points.iter().map(|p| coord(p.0, p.1)).collect()
}

fn geo_line(coords: &Vec<Coord>) -> geo::LineString<f64> {
    geo::LineString::new(
        coords.iter().map(|c| geo::Coord { x: float(c.x), y: float(c.y) }).collect(),
    )
}

fn metres(geometry: &Geometry) -> Scalar {
    match geometry {
        Geometry::LineString(l) => scalar(geo_line(l).length::<Geodesic>()),
        Geometry::MultiLineString(ls) => scalar(
            geo::MultiLineString::new(ls.iter().map(geo_line).collect()).length::<Geodesic>(),
        ),
        Geometry::Other(_) => panic!("only lines are measured"),
    }
}

fn ring_metres(ring: &Vec<Coord>) -> Scalar {
    scalar(geo::Polygon::new(geo_line(ring), vec![]).geodesic_perimeter())
}

fn total(parts: &Vec<Scalar>) -> Scalar {
    scalar(parts.iter().map(|p| float(*p)).sum())
}

fn to_km(m: Scalar) -> Scalar {
    scalar(float(m) * 1e-3)
}

fn plus(a: ChannelLengthKm, b: ChannelLengthKm) -> ChannelLengthKm {
    ChannelLengthKm::new(scalar(float(a.as_f64()) + float(b.as_f64())))
}

fn number(s: Scalar) -> String {
    format!("{}", float(s))
}

fn length_km(geometry: &Geometry) -> f64 {
    float(geodesic_channel_length(geometry, &metres, &to_km).unwrap().as_f64())
}

fn ring(west: f64, south: f64, east: f64, north: f64) -> Vec<Coord> {
    line(&[(west, south), (east, south), (east, north), (west, north), (west, south)])
}

fn geo_rect(west: f64, south: f64, east: f64, north: f64) -> Polygon {
    Polygon { exterior: ring(west, south, east, north), interiors: vec![] }
}

#[test]
fn one_degree_along_the_equator() {
    let km = length_km(&Geometry::LineString(line(&[(0.0, 0.0), (1.0, 0.0)])));
    let rel_err = (km - 111.32).abs() / 111.32;
    assert!(rel_err < 0.01, "expected ≈111.32 km, got {km:.3} km");
}

#[test]
fn multi_line_string_sums_its_parts() {
    let a = line(&[(0.0, 0.0), (1.0, 0.0)]);
    let b = line(&[(10.0, 0.0), (11.0, 0.0)]);
    let one = length_km(&Geometry::LineString(a.clone()));
    let multi = length_km(&Geometry::MultiLineString(vec![a, b]));
    assert!(
        (multi - 2.0 * one).abs() < 1e-6,
        "two equal equatorial degrees should double: {multi} vs {one}"
    );
}

#[test]
fn vertices_are_followed_not_short_circuited() {
    // A dog-leg must measure longer than the straight line between its ends.
    let bent_km = length_km(&Geometry::LineString(line(&[(0.0, 0.0), (0.5, 0.5), (1.0, 0.0)])));
    let straight_km = length_km(&Geometry::LineString(line(&[(0.0, 0.0), (1.0, 0.0)])));
    assert!(
        bent_km > straight_km,
        "sinuous reach {bent_km:.2} km must exceed straight {straight_km:.2} km"
    );
}

#[test]
fn a_point_stem_is_an_error_not_a_zero() {
    assert_eq!(
        geodesic_channel_length(&Geometry::Other(GeometryKind::Point), &metres, &to_km),
        Err(ChannelLengthError::NotLinear { geometry_type: "Point" })
    );
}

#[test]
fn every_other_geometry_is_named() {
    let named = [
        (GeometryKind::Line, "Line"),
        (GeometryKind::Polygon, "Polygon"),
        (GeometryKind::MultiPoint, "MultiPoint"),
        (GeometryKind::MultiPolygon, "MultiPolygon"),
        (GeometryKind::GeometryCollection, "GeometryCollection"),
        (GeometryKind::Rect, "Rect"),
        (GeometryKind::Triangle, "Triangle"),
    ];
    for (kind, geometry_type) in named {
        assert_eq!(
            geodesic_channel_length(&Geometry::Other(kind), &metres, &to_km),
            Err(ChannelLengthError::NotLinear { geometry_type })
        );
    }
}

#[test]
fn zero_is_the_summation_identity() {
    // Summation starts at zero, so a single length is added to it.
    assert_eq!(
        float(sum_lengths(&vec![ChannelLengthKm::new(scalar(5.0))], &plus).as_f64()),
        5.0
    );
    assert_eq!(
        float(
            sum_lengths(
                &vec![ChannelLengthKm::zero(), ChannelLengthKm::new(scalar(5.0))],
                &plus
            )
            .as_f64()
        ),
        5.0
    );
    let summed = sum_lengths(
        &vec![ChannelLengthKm::new(scalar(1.5)), ChannelLengthKm::new(scalar(2.5))],
        &plus,
    );
    assert_eq!(float(summed.as_f64()), 4.0);
    assert_eq!(sum_lengths(&vec![], &plus), ChannelLengthKm::zero());
}

#[test]
fn a_length_that_is_not_finite_is_an_error() {
    let reach = Geometry::LineString(line(&[(0.0, 0.0), (1.0, 0.0)]));
    for raw in [f64::INFINITY, f64::NEG_INFINITY, f64::NAN] {
        let raw_m = scalar(raw);
        assert!(matches!(
            geodesic_channel_length(&reach, &|_: &Geometry| raw_m, &to_km),
            Err(ChannelLengthError::NonFiniteLength { raw_m: m }) if m.bits == raw_m.bits
        ));
    }
}

#[test]
fn one_degree_square_at_equator() {
    // 111.32 km (equator) + 111.30 km (1°N) + 2 × 110.57 km (meridian arcs).
    let result = float(
        geodesic_perimeter(&geo_rect(0.0, 0.0, 1.0, 1.0), &ring_metres, &to_km).unwrap().as_f64(),
    );
    let expected = 443.8_f64;
    let rel_err = (result - expected).abs() / expected;
    assert!(
        rel_err < 0.01,
        "perimeter {result:.1} km deviates {:.2}% from expected {expected} km",
        rel_err * 100.0
    );
}

#[test]
fn holes_do_not_count_towards_perimeter() {
    let solid = geo_rect(0.0, 0.0, 1.0, 1.0);
    let holed = Polygon {
        exterior: ring(0.0, 0.0, 1.0, 1.0),
        interiors: vec![ring(0.25, 0.25, 0.75, 0.75)],
    };
    assert_eq!(
        geodesic_perimeter(&solid, &ring_metres, &to_km).unwrap(),
        geodesic_perimeter(&holed, &ring_metres, &to_km).unwrap(),
        "an interior ring must not change the outer boundary length"
    );
    assert_eq!(
        geodesic_perimeter_multi(
            &MultiPolygon { polygons: vec![solid] },
            &ring_metres,
            &total,
            &to_km
        ),
        geodesic_perimeter_multi(
            &MultiPolygon { polygons: vec![holed] },
            &ring_metres,
            &total,
            &to_km
        ),
    );
}

#[test]
fn multi_polygon_sums_its_parts() {
    let a = geo_rect(0.0, 0.0, 1.0, 1.0);
    let b = geo_rect(10.0, 0.0, 11.0, 1.0);
    let single = float(geodesic_perimeter(&a, &ring_metres, &to_km).unwrap().as_f64())
        + float(geodesic_perimeter(&b, &ring_metres, &to_km).unwrap().as_f64());
    let multi = float(
        geodesic_perimeter_multi(
            &MultiPolygon { polygons: vec![a, b] },
            &ring_metres,
            &total,
            &to_km,
        )
        .unwrap()
        .as_f64(),
    );
    assert!((multi - single).abs() < 1e-6, "{multi} != {single}");
}

#[test]
fn empty_multi_polygon_is_an_error() {
    assert_eq!(
        geodesic_perimeter_multi(&MultiPolygon { polygons: vec![] }, &ring_metres, &total, &to_km),
        Err(WatershedPerimeterError::EmptyGeometry)
    );
}

#[test]
fn a_perimeter_that_is_not_finite_is_an_error() {
    let raw_m = scalar(f64::INFINITY);
    let square = geo_rect(0.0, 0.0, 1.0, 1.0);
    assert_eq!(
        geodesic_perimeter(&square, &|_: &Vec<Coord>| raw_m, &to_km),
        Err(WatershedPerimeterError::NonFinitePerimeter { raw_m })
    );
    assert_eq!(
        geodesic_perimeter_multi(
            &MultiPolygon { polygons: vec![square] },
            &ring_metres,
            &|_: &Vec<Scalar>| raw_m,
            &to_km
        ),
        Err(WatershedPerimeterError::NonFinitePerimeter { raw_m })
    );
}

#[test]
fn lengths_compare_as_numbers_do() {
    let km = |v: f64| ChannelLengthKm::new(scalar(v));
    assert!(km(0.0) == km(-0.0));
    assert!(km(f64::NAN) != km(f64::NAN));
    assert!(km(1.0) < km(2.0) && km(2.0) > km(1.0) && km(1.0) <= km(1.0));
    assert_eq!(km(1.0).partial_cmp(&km(f64::NAN)), None);
    let perimeter = |v: f64| PerimeterKm::new(scalar(v));
    assert!(perimeter(0.0) == perimeter(-0.0));
    assert!(perimeter(f64::NAN) != perimeter(f64::NAN));
    assert!(perimeter(3.0) > perimeter(2.0));
    assert_ne!(
        ChannelLengthError::NonFiniteLength { raw_m: scalar(f64::NAN) },
        ChannelLengthError::NonFiniteLength { raw_m: scalar(f64::NAN) }
    );
}

#[test]
fn perimeter_km_display() {
    assert_eq!(PerimeterKm::new(scalar(12.5)).display(&number), "12.5 km");
}

#[test]
fn channel_length_display() {
    assert_eq!(ChannelLengthKm::new(scalar(0.25)).display(&number), "0.25 km");
}

#[test]
fn errors_say_what_went_wrong() {
    let inf = scalar(f64::INFINITY);
    assert_eq!(
        ChannelLengthError::NotLinear { geometry_type: "Point" }.message(&number),
        "expected linear geometry for channel length, found Point"
    );
    assert_eq!(
        ChannelLengthError::NonFiniteLength { raw_m: inf }.message(&number),
        "geodesic channel length returned non-finite value: inf m"
    );
    assert_eq!(
        WatershedPerimeterError::EmptyGeometry.message(&number),
        "cannot compute perimeter of empty geometry"
    );
    assert_eq!(
        WatershedPerimeterError::NonFinitePerimeter { raw_m: inf }.message(&number),
        "geodesic perimeter returned non-finite value: inf m"
    );
}
