use incline_watershed::fabric::IdError;
use incline_watershed::fabric::Level;
use incline_watershed::fabric::LevelError;
use incline_watershed::fabric::SnapId;
use incline_watershed::fabric::StemRole;
use incline_watershed::fabric::UnitId;
use incline_watershed::geometry::Coord;
use incline_watershed::geometry::MultiPolygon;
use incline_watershed::measure::WatershedAreaKm2;
use incline_watershed::scalar::Scalar;
use incline_watershed::staged::AppliedRefinementProvenance;
use incline_watershed::staged::BestEffortSkipReason;
use incline_watershed::staged::ContainedTerminalPolygon;
use incline_watershed::staged::DissolvedWatershed;
use incline_watershed::staged::LevelResolvedOutlet;
use incline_watershed::staged::PreMergeDrainageUnit;
use incline_watershed::staged::PreMergeDrainageUnits;
use incline_watershed::staged::RefinementMode;
use incline_watershed::staged::RefinementStrategyName;
use incline_watershed::staged::SameLevelUpstreamUnits;
use incline_watershed::staged::SelectedLevel;
use incline_watershed::staged::TerminalRefinement;
use incline_watershed::staged::UpstreamUnits;
use incline_watershed::strahler::UnitLink;

#[test]
fn identifiers_are_positive() {
    assert_eq!(UnitId::new(7).unwrap().get(), 7);
    assert_eq!(UnitId::new(0), Err(IdError::ZeroId));
    assert_eq!(UnitId::new(-3), Err(IdError::NegativeId { value: -3 }));
    assert_eq!(SnapId::new(i64::MAX).unwrap().get(), i64::MAX);
    assert_eq!(SnapId::new(0), Err(IdError::ZeroId));
    assert_eq!(SnapId::new(i64::MIN), Err(IdError::NegativeId { value: i64::MIN }));
}

#[test]
fn levels_are_not_negative() {
    assert_eq!(Level::new(0).unwrap().get(), 0);
    assert_eq!(Level::new(12).unwrap().get(), 12);
    assert_eq!(Level::new(-1), Err(LevelError::Negative { value: -1 }));
}

#[test]
fn stem_roles_have_names() {
    assert_eq!(StemRole::Mainstem.name(), "mainstem");
    assert_eq!(StemRole::Tributary.name(), "tributary");
    assert_eq!(StemRole::Distributary.name(), "distributary");
    assert_eq!(StemRole::Unknown.name(), "unknown");
}

fn level() -> SelectedLevel {
    SelectedLevel::from_proven_level_for_test(Level::new(3).unwrap())
}

#[test]
fn a_selected_level_keeps_the_level() {
    assert_eq!(level().level().get(), 3);
    assert_eq!(level(), SelectedLevel::from_proven_level(Level::new(3).unwrap()));
}

#[test]
fn refinement_is_attempted_by_default() {
    assert_eq!(RefinementMode::default(), RefinementMode::BestEffort);
    assert_eq!(RefinementMode::from(true), RefinementMode::BestEffort);
    assert_eq!(RefinementMode::from(false), RefinementMode::Disabled);
}

#[test]
fn an_outlet_keeps_both_views() {
    let outlet: LevelResolvedOutlet<u8, u64> = LevelResolvedOutlet::new(level(), 9);
    assert_eq!(outlet.selected_level(), level());
    assert_eq!(*outlet.authority(), 9u8);
    assert_eq!(*outlet.resolved(), 9u64);
    let copy = outlet.clone();
    assert_eq!(copy.selected_level(), level());
    assert_eq!(*copy.authority(), 9u8);
    assert_eq!(*copy.resolved(), 9u64);
    assert!(copy == outlet);
}

#[test]
fn upstream_units_keep_the_traversal() {
    let id = UnitId::new(5).unwrap();
    let upstream = UpstreamUnits { links: vec![UnitLink { id, downstream_id: None }] };
    let units = SameLevelUpstreamUnits::new(id, level(), upstream);
    assert_eq!(units.terminal(), id);
    assert_eq!(units.selected_level(), level());
    assert_eq!(units.upstream().len(), 1);
    assert_eq!(units.clone(), units);
}

fn unit(id: i64) -> PreMergeDrainageUnit {
    PreMergeDrainageUnit::new_for_test(
        UnitId::new(id).unwrap(),
        Level::new(3).unwrap(),
        hfx::AreaKm2::new(12.5).unwrap(),
        None,
        hfx::OutletCoord::new(1.5, 0.5).unwrap(),
        MultiPolygon { polygons: vec![] },
    )
}

#[test]
fn drainage_units_keep_their_source_fields() {
    let record = unit(5);
    assert_eq!(record.id().get(), 5);
    assert_eq!(record.level().get(), 3);
    assert_eq!(record.area(), hfx::AreaKm2::new(12.5).unwrap());
    assert!(record.up_area().is_none());
    assert_eq!(record.outlet(), hfx::OutletCoord::new(1.5, 0.5).unwrap());
    assert!(record.geometry().polygons.is_empty());
}

#[test]
fn the_terminal_unit_is_the_first() {
    let id = UnitId::new(5).unwrap();
    let units = PreMergeDrainageUnits::new_for_test(id, level(), vec![unit(5), unit(6)]);
    assert_eq!(units.terminal(), id);
    assert_eq!(units.terminal_unit().unwrap().id(), id);
    assert_eq!(units.selected_level(), level());
    assert_eq!(units.units().len(), 2);
    let none = PreMergeDrainageUnits::new(id, level(), vec![]);
    assert!(none.terminal_unit().is_none());
}

fn reason(refinement: TerminalRefinement) -> BestEffortSkipReason {
    match refinement {
        TerminalRefinement::BestEffortSkipped { provenance } => {
            assert!(matches!(
                provenance.strategy,
                RefinementStrategyName::BestEffortD8IfPresent
            ));
            provenance.why
        }
        _ => panic!("refinement was not skipped"),
    }
}

#[test]
fn a_skipped_refinement_says_why() {
    assert!(matches!(
        reason(TerminalRefinement::best_effort_no_d8_aux_declared()),
        BestEffortSkipReason::NoD8AuxDeclared
    ));
    assert!(matches!(
        reason(TerminalRefinement::best_effort_coarse_unit_only_no_d8_aux_declared()),
        BestEffortSkipReason::CoarseUnitOnlyNoD8AuxDeclared
    ));
    assert!(matches!(
        reason(TerminalRefinement::best_effort_no_raster_source_provided()),
        BestEffortSkipReason::NoRasterSourceProvided
    ));
    assert!(matches!(
        reason(TerminalRefinement::best_effort_skipped(BestEffortSkipReason::NoD8AuxDeclared)),
        BestEffortSkipReason::NoD8AuxDeclared
    ));
    match reason(TerminalRefinement::best_effort_unreadable_d8_aux_declared("v9".to_string())) {
        BestEffortSkipReason::UnreadableD8AuxDeclared { schema } => assert_eq!(schema, "v9"),
        _ => panic!("another reason"),
    }
}

#[test]
fn refinements_are_cloned_whole() {
    let skipped = TerminalRefinement::best_effort_unreadable_d8_aux_declared("v9".to_string());
    assert_eq!(skipped.clone(), skipped);
    assert_eq!(TerminalRefinement::Disabled.clone(), TerminalRefinement::Disabled);
    assert_ne!(skipped, TerminalRefinement::Disabled);
    let applied = TerminalRefinement::Applied {
        refined_outlet: Coord { x: Scalar::zero(), y: Scalar::zero() },
        geometry: ContainedTerminalPolygon { geometry: MultiPolygon { polygons: vec![] } },
        provenance: AppliedRefinementProvenance {
            strategy: RefinementStrategyName::BestEffortD8IfPresent,
        },
    };
    assert_eq!(applied.clone(), applied);
}

#[test]
fn a_dissolved_watershed_keeps_geometry_and_area() {
    let area = WatershedAreaKm2 { km2: Scalar::from_bits(42.5f64.to_bits()) };
    let watershed = DissolvedWatershed::new(MultiPolygon { polygons: vec![] }, area);
    assert_eq!(watershed.area_km2(), area);
    assert_eq!(watershed.clone(), watershed);
    assert!(watershed.geometry().polygons.is_empty());
}
