//! Channel networks: a rectangular sweep narrowed to the delineated units.
use geo::Geodesic;
use geo::Length;
use incline_watershed::fabric::Level;
use incline_watershed::fabric::SnapId;
use incline_watershed::fabric::StemRole;
use incline_watershed::fabric::UnitId;
use incline_watershed::geometry::Coord;
use incline_watershed::geometry::Geometry;
use incline_watershed::geometry::GeometryKind;
use incline_watershed::geometry::MultiPolygon;
use incline_watershed::geometry::Polygon;
use incline_watershed::measure::ChannelLengthError;
use incline_watershed::measure::ChannelLengthKm;
use incline_watershed::network::upstream_reaches;
use incline_watershed::network::ReachError;
use incline_watershed::network::SnapFeature;
use incline_watershed::network::UpstreamReaches;
use incline_watershed::scalar::Scalar;
use incline_watershed::staged::PreMergeDrainageUnit;
use incline_watershed::staged::PreMergeDrainageUnits;
use incline_watershed::staged::SelectedLevel;

fn scalar(v: f64) -> Scalar {
    Scalar::from_bits(v.to_bits())
}

fn float(s: Scalar) -> f64 {
    f64::from_bits(s.bits)
}

fn coord(x: f64, y: f64) -> Coord {
    Coord { x: scalar(x), y: scalar(y) }
}

fn geo_line(coords: &Vec<Coord>) -> geo::LineString<f64> {
    geo::LineString::new(
        coords.iter().map(|c| geo::Coord { x: float(c.x), y: float(c.y) }).collect(),
    )
}

fn metres(geometry: &Geometry) -> Scalar {
    match geometry {
        Geometry::LineString(l) => scalar(geo_line(l).length::<Geodesic>()),
        Geometry::MultiLineString(ls) => scalar(
            geo::MultiLineString::new(ls.iter().map(geo_line).collect()).length::<Geodesic>(),
        ),
        Geometry::Other(_) => panic!("only lines are measured"),
    }
}

fn to_km(m: Scalar) -> Scalar {
    scalar(float(m) * 1e-3)
}

fn plus(a: ChannelLengthKm, b: ChannelLengthKm) -> ChannelLengthKm {
    ChannelLengthKm::new(scalar(float(a.as_f64()) + float(b.as_f64())))
}

fn total_km(network: &UpstreamReaches) -> f64 {
    float(network.total_length(&plus).as_f64())
}

fn level() -> SelectedLevel {
    SelectedLevel::from_proven_level(Level::new(0).unwrap())
}

fn unit(id: i64, box_: (f64, f64, f64, f64)) -> PreMergeDrainageUnit {
    let (west, south, east, north) = box_;
    PreMergeDrainageUnit::new(
        UnitId::new(id).unwrap(),
        Level::new(0).unwrap(),
        hfx::AreaKm2::new(100.0).unwrap(),
        Some(hfx::AreaKm2::new(100.0).unwrap()),
        hfx::OutletCoord::new(west, south).unwrap(),
        MultiPolygon {
            polygons: vec![Polygon {
                exterior: vec![
                    coord(west, south),
                    coord(east, south),
                    coord(east, north),
                    coord(west, north),
                    coord(west, south),
                ],
                interiors: vec![],
            }],
        },
    )
}

fn target(id: i64, unit_id: i64, weight: f32, geometry: Geometry) -> SnapFeature {
    SnapFeature {
        snap_id: SnapId::new(id).unwrap(),
        unit_id: UnitId::new(unit_id).unwrap(),
        stem_role: Some(StemRole::Mainstem),
        weight: hfx::Weight::new(weight).unwrap(),
        geometry,
        geometry_wkb: vec![1, 2, 0, 0, id as u8],
    }
}

fn diagonal(x0: f64, y0: f64, x1: f64, y1: f64) -> Geometry {
    Geometry::LineString(vec![coord(x0, y0), coord(x1, y1)])
}

/// Three units in an L, so that the rectangle round the delineated pair holds the
/// third, which is downstream.
fn l_shaped_fixture() -> (PreMergeDrainageUnits, Vec<SnapFeature>) {
    let units = PreMergeDrainageUnits::new(
        UnitId::new(20).unwrap(),
        level(),
        vec![unit(20, (1.0, 0.0, 2.0, 1.0)), unit(10, (0.0, 1.0, 1.0, 2.0))],
    );
    let targets = vec![
        target(1, 10, 100.0, diagonal(0.2, 1.2, 0.8, 1.8)),
        target(2, 20, 200.0, diagonal(1.2, 0.2, 1.8, 0.8)),
        target(3, 30, 300.0, diagonal(0.2, 0.2, 0.8, 0.8)),
    ];
    (units, targets)
}

fn network(fixture: (PreMergeDrainageUnits, Vec<SnapFeature>)) -> UpstreamReaches {
    upstream_reaches(&fixture.0, Some(&fixture.1), &metres, &to_km).expect("reach query")
}

#[test]
fn reaches_exclude_units_outside_the_delineated_set() {
    let fixture = l_shaped_fixture();
    let members: Vec<i64> = fixture.0.units().iter().map(|unit| unit.id().get()).collect();
    assert_eq!(members.len(), 2, "expected {{20, 10}}, got {members:?}");

    let reaches = network(fixture);
    let mut reach_units: Vec<i64> =
        reaches.reaches().iter().map(|reach| reach.unit_id().get()).collect();
    reach_units.sort_unstable();

    assert_eq!(
        reach_units,
        vec![10, 20],
        "unit 30's reach sits inside the query rectangle but is downstream; \
         it must be filtered out by unit_id, not counted"
    );
}

#[test]
fn total_length_sums_exactly_the_retained_reaches() {
    let reaches = network(l_shaped_fixture());
    let summed: f64 = reaches.reaches().iter().map(|reach| float(reach.length().as_f64())).sum();
    assert!(
        (total_km(&reaches) - summed).abs() < 1e-9,
        "total_length {} must equal the sum of its parts {summed}",
        total_km(&reaches)
    );
    assert!(
        total_km(&reaches) > 0.0,
        "two diagonal degree-scale reaches must carry real length"
    );
}

#[test]
fn every_reach_carries_length_role_and_original_wkb() {
    let reaches = network(l_shaped_fixture());
    for reach in reaches.reaches() {
        assert!(
            float(reach.length().as_f64()) > 0.0,
            "reach {} measured zero",
            reach.snap_id().get()
        );
        assert_eq!(
            reach.stem_role(),
            Some(StemRole::Mainstem),
            "fixture declares every target as mainstem"
        );
        assert!(
            !reach.geometry_wkb().is_empty(),
            "the fabric's own WKB bytes must be carried through"
        );
        assert_eq!(reach.geometry_wkb()[4] as i64, reach.snap_id().get());
    }
    assert_eq!(
        reaches.count_of(StemRole::Mainstem),
        reaches.len(),
        "mainstem count must cover every retained reach"
    );
    assert_eq!(
        reaches.count_of(StemRole::Distributary),
        0,
        "a dendritic fixture declares no distributary"
    );
}

/// A single-unit basin whose only reach runs corner to corner along the bounding
/// box.
#[test]
fn a_single_unit_basin_retains_its_boundary_reach() {
    let units = PreMergeDrainageUnits::new(
        UnitId::new(10).unwrap(),
        level(),
        vec![unit(10, (0.0, 0.0, 1.0, 1.0))],
    );
    let targets = vec![target(1, 10, 100.0, diagonal(0.0, 0.0, 1.0, 1.0))];
    let reaches = network((units, targets));
    assert_eq!(
        reaches.len(),
        1,
        "a corner-to-corner reach lies on the query rectangle and must be retained"
    );
    assert!(
        total_km(&reaches) > 100.0,
        "a one-degree diagonal is ~157 km, got {}",
        total_km(&reaches)
    );
}

/// Asking a dataset without snap features for a network is an error, and not an
/// empty answer that would read as a basin without rivers.
#[test]
fn reach_query_reports_a_dataset_that_declares_no_snap_auxiliary() {
    let (units, _) = l_shaped_fixture();
    let err = upstream_reaches(&units, None, &metres, &to_km)
        .expect_err("no snap auxiliary means no channel network to return");
    assert!(
        matches!(err, ReachError::NoSnapAuxForLevel { level: l } if l == level()),
        "expected NoSnapAuxForLevel, got {err:?}"
    );
}

/// A point inside the basin is reported and not counted as zero length.
#[test]
fn a_point_stem_is_reported_rather_than_counted_as_zero() {
    let units = PreMergeDrainageUnits::new(
        UnitId::new(10).unwrap(),
        level(),
        vec![unit(10, (0.0, 0.0, 1.0, 1.0))],
    );
    let targets = vec![target(1, 10, 100.0, Geometry::Other(GeometryKind::Point))];
    let err = upstream_reaches(&units, Some(&targets), &metres, &to_km)
        .expect_err("a Point carries no length and must not be silently counted as 0 km");
    assert!(
        matches!(
            err,
            ReachError::ReachLength {
                source: ChannelLengthError::NotLinear { geometry_type: "Point" },
                ..
            }
        ),
        "expected ReachLength, got {err:?}"
    );
}

#[test]
fn a_point_outside_the_basin_is_no_error() {
    let (units, mut targets) = l_shaped_fixture();
    targets[2].geometry = Geometry::Other(GeometryKind::Point);
    assert_eq!(network((units, targets)).len(), 2);
}

#[test]
fn the_first_failing_reach_is_named() {
    let (units, mut targets) = l_shaped_fixture();
    targets[1].geometry = Geometry::Other(GeometryKind::Polygon);
    match upstream_reaches(&units, Some(&targets), &metres, &to_km) {
        Err(ReachError::ReachLength { snap_id, source }) => {
            assert_eq!(snap_id.get(), 2);
            assert_eq!(source, ChannelLengthError::NotLinear { geometry_type: "Polygon" });
        }
        other => panic!("{other:?}"),
    }
}

#[test]
fn roles_are_counted_and_measured_apart() {
    let (units, mut targets) = l_shaped_fixture();
    targets[0].stem_role = Some(StemRole::Tributary);
    targets.push(target(4, 10, 1.0, diagonal(0.1, 1.1, 0.2, 1.2)));
    targets[3].stem_role = None;
    let reaches = network((units, targets));
    assert_eq!(reaches.terminal().get(), 20);
    assert_eq!(reaches.selected_level(), level());
    assert!(!reaches.is_empty());
    let lengths: Vec<f64> =
        reaches.reaches().iter().map(|reach| float(reach.length().as_f64())).collect();
    assert_eq!(
        float(reaches.total_length_of(StemRole::Tributary, &plus).as_f64()),
        lengths[0]
    );
    assert_eq!(float(reaches.total_length_of(StemRole::Mainstem, &plus).as_f64()), lengths[1]);
    assert_eq!(float(reaches.total_length_of(StemRole::Unknown, &plus).as_f64()), 0.0);
    let roles = [
        StemRole::Mainstem,
        StemRole::Tributary,
        StemRole::Distributary,
        StemRole::Unknown,
    ];
    let carried: usize = roles.iter().map(|role| reaches.count_of(*role)).sum();
    assert_eq!(carried + 1, reaches.len());
}

#[test]
fn a_role_is_part_of_the_length() {
    let (units, mut targets) = l_shaped_fixture();
    let all = network(l_shaped_fixture());
    let of = |network: &UpstreamReaches, role: StemRole| {
        float(network.total_length_of(role, &plus).as_f64())
    };
    assert_eq!(of(&all, StemRole::Mainstem), total_km(&all));
    assert_eq!(of(&all, StemRole::Tributary), 0.0);
    targets[0].stem_role = None;
    let some = network((units, targets));
    assert!(0.0 < of(&some, StemRole::Mainstem));
    assert!(of(&some, StemRole::Mainstem) < total_km(&some));
}

#[test]
fn a_clone_is_equal() {
    let (units, targets) = l_shaped_fixture();
    assert_eq!(units.clone(), units);
    let reaches = network((units, targets));
    assert_eq!(reaches.clone(), reaches);
    assert_eq!(reaches.reaches()[0].clone(), reaches.reaches()[0]);
    assert_ne!(reaches.reaches()[0], reaches.reaches()[1]);
}

#[test]
fn a_basin_without_linework_has_an_empty_network() {
    let (units, _) = l_shaped_fixture();
    let reaches = network((units, vec![]));
    assert!(reaches.is_empty());
    assert_eq!(total_km(&reaches), 0.0);
}
