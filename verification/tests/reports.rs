use incline_watershed::delineate::plan_query;
use incline_watershed::delineate::Delineation;
use incline_watershed::delineate::Event;
use incline_watershed::delineate::Stage;
use incline_watershed::fabric::Level;
use incline_watershed::fabric::SnapId;
use incline_watershed::fabric::StemRole;
use incline_watershed::fabric::UnitId;
use incline_watershed::geojson::LineGeometry;
use incline_watershed::geometry::Coord;
use incline_watershed::geometry::Geometry;
use incline_watershed::geometry::MultiPolygon;
use incline_watershed::geometry::Polygon;
use incline_watershed::measure::ChannelLengthKm;
use incline_watershed::network::DrainageReach;
use incline_watershed::network::UpstreamReaches;
use incline_watershed::report::report;
use incline_watershed::report::Found;
use incline_watershed::report::Kernels;
use incline_watershed::report::Report;
use incline_watershed::request::parse_query;
use incline_watershed::scalar::Scalar;
use incline_watershed::staged::SelectedLevel;
use incline_watershed::strahler::UnitLink;

fn scalar(v: f64) -> Scalar {
    Scalar::from_bits(v.to_bits())
}

fn float(s: Scalar) -> f64 {
    f64::from_bits(s.bits)
}

fn line(points: &[(f64, f64)]) -> Vec<Coord> {
    points.iter().map(|p| Coord { x: scalar(p.0), y: scalar(p.1) }).collect()
}

fn unit(id: i64) -> UnitId {
    UnitId::new(id).unwrap()
}

fn reach(id: i64, unit_id: i64, role: StemRole, km: f64, points: &[(f64, f64)]) -> DrainageReach {
    DrainageReach::new(
        SnapId::new(id).unwrap(),
        unit(unit_id),
        Some(role),
        hfx::Weight::new(1.0).unwrap(),
        ChannelLengthKm::new(scalar(km)),
        Geometry::LineString(line(points)),
        vec![],
    )
}

fn found(links: Vec<UnitLink>) -> Found {
    Found {
        finest_units: 12,
        units: 3,
        terminal: unit(1),
        links,
        outlet: line(&[(3.0, 0.0)])[0],
        watershed: MultiPolygon {
            polygons: vec![Polygon {
                exterior: line(&[(0.0, 0.0), (3.0, 0.0), (3.0, 4.0), (0.0, 4.0), (0.0, 0.0)]),
                interiors: vec![],
            }],
        },
        area_km2: scalar(12.0),
        perimeter_km: scalar(14.0),
        network: UpstreamReaches::new(
            unit(1),
            SelectedLevel::from_proven_level(Level::new(0).unwrap()),
            vec![
                reach(1, 2, StemRole::Tributary, 1.5, &[(0.0, 4.0), (1.0, 2.0)]),
                reach(2, 1, StemRole::Mainstem, 2.5, &[(1.0, 2.0), (2.0, 1.0), (4.0, -1.0)]),
            ],
        ),
    }
}

fn tree() -> Vec<UnitLink> {
    vec![
        UnitLink { id: unit(1), downstream_id: None },
        UnitLink { id: unit(2), downstream_id: Some(unit(1)) },
        UnitLink { id: unit(3), downstream_id: Some(unit(1)) },
    ]
}

fn squared(a: Coord, b: Coord) -> f64 {
    let (dx, dy) = (float(a.x) - float(b.x), float(a.y) - float(b.y));
    dx * dx + dy * dy
}

fn reported(query: &str, rung: usize, found: &Found) -> Option<Report> {
    let number = |text: &String| text.parse::<f64>().ok().map(scalar);
    let mut run = Delineation::begin(plan_query(&parse_query(query), &number).unwrap());
    run = run.advance(Event::Succeeded);
    for _ in 0..rung {
        run = run.advance(Event::Succeeded).advance(Event::Failed("nothing near".to_string()));
    }
    for _ in 0..8 {
        run = run.advance(Event::Succeeded);
    }
    assert!(matches!(run.stage(), Stage::Done { rung: r } if *r == rung));
    let kernels = Kernels {
        kilometres: |a: Coord, b: Coord| scalar(squared(a, b).sqrt()),
        plus: |a: ChannelLengthKm, b: ChannelLengthKm| {
            ChannelLengthKm::new(scalar(float(a.km) + float(b.km)))
        },
        to_segment: |p: Coord, a: Coord, b: Coord| {
            scalar(squared(p, a).min(squared(p, b)))
        },
        to_point: |a: Coord, b: Coord| scalar(squared(a, b)),
        clip: |_: &Vec<Vec<Vec<Coord>>>, paths: &Vec<Vec<Coord>>| paths.clone(),
        round: |v: Scalar| scalar(float(v).round()),
        simplify: |_: &MultiPolygon, _: Scalar| MultiPolygon { polygons: vec![] },
    };
    report(&run, rung, found, &kernels)
}

#[test]
fn a_finished_delineation_is_reported() {
    let report = reported("lat=1.5&lon=2.5", 2, &found(tree())).unwrap();
    assert_eq!(float(report.lat), 1.5);
    assert_eq!(float(report.lon), 2.5);
    assert_eq!(float(report.radius_used_m), 1_000.0);
    assert!(report.escalated);
    assert_eq!(report.terminal_unit_id, unit(1));
    assert_eq!(report.resolved, line(&[(3.0, 0.0)])[0]);
    assert_eq!(float(report.area_km2), 12.0);
    assert_eq!(float(report.perimeter_km), 14.0);
    assert_eq!(float(report.basin_length_km), 5.0);
    assert_eq!(float(report.channel_length_km), 4.0);
    assert_eq!(float(report.mainstem_length_km), 2.5);
    assert_eq!(report.summary.order_counts, vec![2, 1]);
    assert_eq!(report.summary.finest_units, 12);
    assert_eq!(float(report.simplified_deg), 0.0);
    assert_eq!(report.watershed.len(), 1);
    assert_eq!(report.watershed[0][0].len(), 5);
    assert_eq!(report.reaches.len(), 2);
    match &report.reaches[1].geometry {
        LineGeometry::LineString(l) => {
            assert_eq!(*l, line(&[(1.0, 2.0), (3.0, 0.0)]));
        }
        other => panic!("{other:?}"),
    }
}

#[test]
fn an_asked_radius_is_reported_as_it_is() {
    let report = reported("lat=1&lon=2&radius=750", 0, &found(tree())).unwrap();
    assert_eq!(float(report.radius_used_m), 750.0);
    assert!(!report.escalated);
}

#[test]
fn units_in_a_circle_are_not_reported() {
    let circle = vec![UnitLink { id: unit(1), downstream_id: Some(unit(1)) }];
    assert!(reported("lat=1&lon=2", 0, &found(circle)).is_none());
}
