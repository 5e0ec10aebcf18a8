use incline_watershed::delineate::plan_query;
use incline_watershed::delineate::radius_ladder;
use incline_watershed::delineate::summarise;
use incline_watershed::delineate::Delineation;
use incline_watershed::delineate::Event;
use incline_watershed::delineate::Plan;
use incline_watershed::delineate::Refusal;
use incline_watershed::delineate::Stage;
use incline_watershed::delineate::Task;
use incline_watershed::fabric::Level;
use incline_watershed::fabric::SnapId;
use incline_watershed::fabric::StemRole;
use incline_watershed::fabric::UnitId;
use incline_watershed::geometry::Geometry;
use incline_watershed::measure::ChannelLengthKm;
use incline_watershed::network::DrainageReach;
use incline_watershed::network::UpstreamReaches;
use incline_watershed::request::parse_query;
use incline_watershed::scalar::Scalar;
use incline_watershed::staged::LevelSelection;
use incline_watershed::staged::RefinementMode;
use incline_watershed::staged::SelectedLevel;
use incline_watershed::strahler::UnitLink;

fn number(text: &String) -> Option<Scalar> {
    text.parse::<f64>().ok().map(|v| Scalar::from_bits(v.to_bits()))
}

fn float(s: Scalar) -> f64 {
    f64::from_bits(s.bits)
}

fn asked(query: &str) -> Result<Plan, Refusal> {
    plan_query(&parse_query(query), &number)
}

fn begin(query: &str) -> Delineation {
    Delineation::begin(asked(query).unwrap())
}

fn failed(message: &str) -> Event {
    Event::Failed(message.to_string())
}

#[test]
fn the_ladder_has_five_rungs() {
    let rungs: Vec<f64> = radius_ladder().iter().map(|r| float(*r)).collect();
    assert_eq!(rungs, vec![100.0, 300.0, 1_000.0, 5_000.0, 20_000.0]);
}

#[test]
fn a_position_is_required() {
    for query in ["", "lat=1", "lon=1", "lat=x&lon=1", "lat=1&lon="] {
        let refusal = asked(query).unwrap_err();
        assert_eq!(refusal.status(), 400);
        assert_eq!(refusal.message(), "lat and lon are required");
        assert!(matches!(refusal, Refusal::Invalid { .. }));
    }
}

#[test]
fn a_query_is_planned() {
    let plan = asked("lat=27.5&lon=%2D75.25").unwrap();
    assert_eq!(float(plan.lat()), 27.5);
    assert_eq!(float(plan.lon()), -75.25);
    assert!(!plan.distance_first());
    assert_eq!(plan.ladder().len(), 5);
    let plan = asked("lat=1&lon=2&strategy=distance&radius=250").unwrap();
    assert!(plan.distance_first());
    let rungs: Vec<f64> = plan.ladder().iter().map(|r| float(*r)).collect();
    assert_eq!(rungs, vec![250.0]);
    let plan = asked("lat=1&lon=2&strategy=Distance&radius=far").unwrap();
    assert!(!plan.distance_first());
    assert_eq!(plan.ladder().len(), 5);
}

#[test]
fn a_delineation_takes_its_course() {
    let mut run = begin("lat=1&lon=2");
    assert!(matches!(run.stage(), Stage::SelectLevel));
    run = run.advance(Event::Succeeded);
    assert!(matches!(run.stage(), Stage::Configure { rung: 0 }));
    run = run.advance(Event::Succeeded);
    assert!(matches!(run.stage(), Stage::Resolve { rung: 0 }));
    run = run.advance(failed("nothing near"));
    assert!(matches!(run.stage(), Stage::Configure { rung: 1 }));
    run = run.advance(Event::Succeeded).advance(Event::Succeeded);
    let tasks = [
        Task::TraverseUpstream,
        Task::ProduceUnits,
        Task::RefineTerminal,
        Task::DissolveWatershed,
        Task::CollectReaches,
        Task::MeasurePerimeter,
    ];
    for expected in tasks {
        match run.stage() {
            Stage::Run { rung, task } => {
                assert_eq!(*rung, 1);
                assert_eq!(*task, expected);
            }
            other => panic!("{other:?}"),
        }
        run = run.advance(Event::Succeeded);
    }
    assert!(matches!(run.stage(), Stage::Done { rung: 1 }));
    assert_eq!(float(run.radius(1)), 300.0);
    assert!(run.escalated(1));
    assert!(!run.escalated(0));
    assert_eq!(float(run.plan().lat()), 1.0);
    run = run.advance(failed("too late"));
    assert!(matches!(run.stage(), Stage::Done { rung: 1 }));
}

#[test]
fn the_engine_runs_on_whole_units_of_the_finest_level() {
    let run = begin("lat=1&lon=2");
    assert_eq!(run.level_selection(), LevelSelection::Finest);
    assert_eq!(run.refinement_mode(), RefinementMode::Disabled);
}

#[test]
fn only_an_attempt_that_failed_says_so() {
    let invalid = Refusal::Invalid { message: "m".to_string() };
    assert_eq!((invalid.ok(), invalid.radius_exhausted()), (None, None));
    let failure = Refusal::Failed { message: "m".to_string() };
    assert_eq!((failure.ok(), failure.radius_exhausted()), (Some(false), None));
    let metres = Scalar::from_bits(300.0f64.to_bits());
    let exhausted = Refusal::RadiusExhausted { message: "m".to_string(), metres };
    assert_eq!((exhausted.ok(), exhausted.radius_exhausted()), (Some(false), Some(metres)));
}

#[test]
fn an_exhausted_search_names_the_last_radius() {
    let mut run = begin("lat=1&lon=2").advance(Event::Succeeded);
    for rung in 0..5 {
        assert!(matches!(run.stage(), Stage::Configure { rung: r } if *r == rung));
        run = run.advance(Event::Succeeded).advance(failed(&format!("miss {rung}")));
    }
    match run.stage() {
        Stage::Refused(refusal) => {
            assert_eq!(refusal.status(), 200);
            assert_eq!(refusal.message(), "miss 4");
            match refusal {
                Refusal::RadiusExhausted { metres, .. } => assert_eq!(float(*metres), 20_000.0),
                other => panic!("{other:?}"),
            }
        }
        other => panic!("{other:?}"),
    }
    run = run.advance(Event::Succeeded);
    assert!(matches!(run.stage(), Stage::Refused(_)));
}

#[test]
fn an_asked_radius_is_tried_once() {
    let run = begin("lat=1&lon=2&radius=5000").advance(Event::Succeeded).advance(Event::Succeeded);
    assert_eq!(float(run.radius(0)), 5_000.0);
    assert!(!run.escalated(0));
    let run = run.advance(failed("miss"));
    assert!(matches!(
        run.stage(),
        Stage::Refused(Refusal::RadiusExhausted { metres, .. }) if float(*metres) == 5_000.0
    ));
}

#[test]
fn a_radius_that_is_not_accepted_is_the_callers_fault() {
    let run = begin("lat=1&lon=2&radius=-1").advance(Event::Succeeded).advance(failed("negative"));
    match run.stage() {
        Stage::Refused(refusal) => {
            assert_eq!(refusal.status(), 400);
            assert_eq!(refusal.message(), "negative");
        }
        other => panic!("{other:?}"),
    }
}

#[test]
fn a_failing_engine_is_reported() {
    for successes in [0, 3, 4, 5, 6, 7, 8] {
        let mut run = begin("lat=1&lon=2");
        for _ in 0..successes {
            run = run.advance(Event::Succeeded);
        }
        run = run.advance(failed("broken"));
        match run.stage() {
            Stage::Refused(refusal) => {
                assert!(matches!(refusal, Refusal::Failed { .. }));
                assert_eq!(refusal.status(), 200);
                assert_eq!(refusal.message(), "broken");
            }
            other => panic!("{other:?}"),
        }
    }
}

#[test]
fn every_course_ends() {
    for pattern in 0u32..1 << 17 {
        let mut run = begin("lat=1&lon=2");
        for step in 0..17 {
            let event = if pattern >> step & 1 == 1 { Event::Succeeded } else { failed("") };
            run = run.advance(event);
        }
        assert!(matches!(run.stage(), Stage::Done { .. } | Stage::Refused(_)));
    }
}

fn reach(role: Option<StemRole>) -> DrainageReach {
    DrainageReach::new(
        SnapId::new(1).unwrap(),
        UnitId::new(1).unwrap(),
        role,
        hfx::Weight::new(1.0).unwrap(),
        ChannelLengthKm::zero(),
        Geometry::LineString(vec![]),
        vec![],
    )
}

fn link(id: i64, down: Option<i64>) -> UnitLink {
    UnitLink {
        id: UnitId::new(id).unwrap(),
        downstream_id: down.map(|d| UnitId::new(d).unwrap()),
    }
}

#[test]
fn a_result_is_counted() {
    let level = SelectedLevel::from_proven_level(Level::new(0).unwrap());
    let terminal = UnitId::new(1).unwrap();
    let network = UpstreamReaches::new(
        terminal,
        level,
        vec![
            reach(Some(StemRole::Mainstem)),
            reach(Some(StemRole::Mainstem)),
            reach(Some(StemRole::Tributary)),
            reach(Some(StemRole::Distributary)),
            reach(Some(StemRole::Unknown)),
            reach(None),
        ],
    );
    let links = vec![link(1, None), link(2, Some(1)), link(3, Some(1)), link(4, Some(2))];
    let summary = summarise(9, 4, terminal, &links, &network).unwrap();
    assert_eq!(summary.finest_units, 9);
    assert_eq!(summary.units, 4);
    assert_eq!(summary.order_counts, vec![3, 1]);
    assert_eq!(summary.max_strahler_order, 2);
    assert_eq!(summary.first_order_units, 3);
    assert_eq!(summary.reaches, 6);
    assert_eq!(summary.mainstem, 2);
    assert_eq!(summary.tributary, 1);
    assert_eq!(summary.distributary, 1);
    let circle = vec![link(1, Some(1))];
    assert!(summarise(9, 1, terminal, &circle, &network).is_none());
}
