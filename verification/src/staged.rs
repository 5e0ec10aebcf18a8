//! The values that the stages of a delineation hand on.
//!
//! A run selects a level, resolves the outlet on it, walks upstream, collects
//! the drainage units, refines the terminal unit, dissolves everything into one
//! watershed, and reads the channel network inside it.
use vstd::prelude::*;

use crate::fabric::Level;
use crate::fabric::UnitId;
use crate::geometry::Coord;
use crate::geometry::MultiPolygon;
use crate::geometry::Rings;
use crate::measure::WatershedAreaKm2;
use crate::strahler::UnitLink;

verus! {

/// `hfx::AreaKm2`, an area that the dataset declares; only carried along here.
#[verifier::external_type_specification]
#[verifier::external_body]
pub struct ExDeclaredArea(hfx::AreaKm2);

/// `hfx::OutletCoord`, an outlet position that the dataset declares; only
/// carried along here.
#[verifier::external_type_specification]
#[verifier::external_body]
pub struct ExOutletCoord(hfx::OutletCoord);

/// `hfx::Weight`, a ranking weight that the dataset declares; only carried along
/// here.
#[verifier::external_type_specification]
#[verifier::external_body]
pub struct ExWeight(hfx::Weight);

/// Which drainage-unit level a run uses.
#[derive(Clone, Copy, Debug, PartialEq, Eq, Structural)]
pub enum LevelSelection {
    /// The finest level of the dataset.
    Finest,
}

/// A level that the dataset was found to hold.
///
/// The stages take this and no raw level. That the dataset holds the level is up
/// to whoever calls [`SelectedLevel::from_proven_level`].
#[derive(Clone, Copy, Debug, PartialEq, Eq, Structural)]
pub struct SelectedLevel {
    level: Level,
}

impl View for SelectedLevel {
    type V = Level;

    closed spec fn view(&self) -> Level {
        self.level
    }
}

impl SelectedLevel {
    /// The selected level, once the dataset has been found to hold it.
    pub fn from_proven_level(level: Level) -> (r: Self)
        ensures
            r@ == level,
    {
        SelectedLevel { level }
    }

    /// A selected level for focused tests.
    pub fn from_proven_level_for_test(level: Level) -> (r: Self)
        ensures
            r@ == level,
    {
        Self::from_proven_level(level)
    }

    /// The selected level.
    pub fn level(self) -> (r: Level)
        ensures
            r == self@,
    {
        self.level
    }
}

/// Whether terminal refinement is attempted.
#[derive(Clone, Copy, Debug, PartialEq, Eq, Structural)]
pub enum RefinementMode {
    /// Refine where the dataset and the engine provide rasters.
    BestEffort,
    /// Refine, and fail where that is not possible.
    RequireD8,
    /// Do not refine; dissolve whole drainage units.
    Disabled,
}

impl Default for RefinementMode {
    fn default() -> (r: Self)
        ensures
            r == RefinementMode::BestEffort,
    {
        RefinementMode::BestEffort
    }
}

impl From<bool> for RefinementMode {
    fn from(refine: bool) -> (r: Self) {
        if refine {
            RefinementMode::BestEffort
        } else {
            RefinementMode::Disabled
        }
    }
}

impl vstd::std_specs::convert::FromSpecImpl<bool> for RefinementMode {
    open spec fn obeys_from_spec() -> bool {
        true
    }

    open spec fn from_spec(refine: bool) -> Self {
        if refine {
            RefinementMode::BestEffort
        } else {
            RefinementMode::Disabled
        }
    }
}

/// An outlet resolved on the selected level.
///
/// `A` is the typed outcome of the resolver and `R` its older form. The older
/// form is derived from the typed one on construction, and neither can be
/// changed afterwards, so the two cannot diverge.
#[derive(Debug, PartialEq)]
pub struct LevelResolvedOutlet<A, R> {
    selected_level: SelectedLevel,
    authority: A,
    legacy_resolved: R,
}

impl<A, R> LevelResolvedOutlet<A, R> {
    pub closed spec fn spec_level(self) -> SelectedLevel {
        self.selected_level
    }

    pub closed spec fn spec_authority(self) -> A {
        self.authority
    }

    pub closed spec fn spec_legacy(self) -> R {
        self.legacy_resolved
    }

    /// The older form is the conversion of a copy of the typed outcome.
    pub open spec fn is_consistent(self) -> bool where A: Clone, R: From<A> {
        exists|copy: A| #[trigger]
            cloned(self.spec_authority(), copy) && call_ensures(
                <R as From<A>>::from,
                (copy,),
                self.spec_legacy(),
            )
    }

    pub fn new(selected_level: SelectedLevel, authority: A) -> (r: Self) where A: Clone, R: From<A>
        ensures
            r.spec_level() == selected_level,
            r.spec_authority() == authority,
            r.is_consistent(),
    {
        let copy = authority.clone();
        let ghost kept = copy;
        let legacy_resolved = R::from(copy);
        let r = LevelResolvedOutlet { selected_level, authority, legacy_resolved };
        assert(cloned(r.spec_authority(), kept));
        r
    }

    /// The level on which the outlet was resolved.
    pub fn selected_level(&self) -> (r: SelectedLevel)
        ensures
            r == self.spec_level(),
    {
        self.selected_level
    }

    /// The older form of the outcome.
    pub fn resolved(&self) -> (r: &R)
        ensures
            *r == self.spec_legacy(),
    {
        &self.legacy_resolved
    }

    /// The typed outcome.
    pub fn authority(&self) -> (r: &A)
        ensures
            *r == self.spec_authority(),
    {
        &self.authority
    }
}

impl<A, R> Clone for LevelResolvedOutlet<A, R> where A: Clone, R: From<A> {
    /// Another outlet with a copy of the typed outcome. The older form is derived
    /// from that copy, so that the two forms of the clone do not diverge either.
    fn clone(&self) -> (r: Self)
        ensures
            r.spec_level() == self.spec_level(),
            cloned(self.spec_authority(), r.spec_authority()),
            r.is_consistent(),
    {
        Self::new(self.selected_level, self.authority.clone())
    }
}

/// The units upstream of an outlet, the terminal unit among them.
#[derive(Debug, PartialEq)]
pub struct UpstreamUnits {
    /// One record for each unit, the terminal unit first.
    pub links: Vec<UnitLink>,
}

impl Clone for UpstreamUnits {
    fn clone(&self) -> (r: Self)
        ensures
            r.links@ == self.links@,
    {
        let links = self.links.clone();
        assert(links@ =~= self.links@);
        UpstreamUnits { links }
    }
}

impl UpstreamUnits {
    /// How many units there are.
    pub fn len(&self) -> (r: usize)
        ensures
            r == self.links@.len(),
    {
        self.links.len()
    }
}

/// The upstream units of an outlet, all of one level.
#[derive(Debug, PartialEq)]
pub struct SameLevelUpstreamUnits {
    terminal: UnitId,
    selected_level: SelectedLevel,
    upstream: UpstreamUnits,
}

impl Clone for SameLevelUpstreamUnits {
    fn clone(&self) -> (r: Self)
        ensures
            r.spec_terminal() == self.spec_terminal(),
            r.spec_level() == self.spec_level(),
            r.spec_upstream().links@ == self.spec_upstream().links@,
    {
        SameLevelUpstreamUnits {
            terminal: self.terminal,
            selected_level: self.selected_level,
            upstream: self.upstream.clone(),
        }
    }
}

impl SameLevelUpstreamUnits {
    pub closed spec fn spec_terminal(self) -> UnitId {
        self.terminal
    }

    pub closed spec fn spec_level(self) -> SelectedLevel {
        self.selected_level
    }

    pub closed spec fn spec_upstream(self) -> UpstreamUnits {
        self.upstream
    }

    /// The result of a walk that stayed on the selected level.
    pub fn new(terminal: UnitId, selected_level: SelectedLevel, upstream: UpstreamUnits) -> (r: Self)
        ensures
            r.spec_terminal() == terminal,
            r.spec_level() == selected_level,
            r.spec_upstream() == upstream,
    {
        SameLevelUpstreamUnits { terminal, selected_level, upstream }
    }

    /// The terminal unit.
    pub fn terminal(&self) -> (r: UnitId)
        ensures
            r == self.spec_terminal(),
    {
        self.terminal
    }

    /// The level of all units.
    pub fn selected_level(&self) -> (r: SelectedLevel)
        ensures
            r == self.spec_level(),
    {
        self.selected_level
    }

    /// The upstream units, the terminal unit first.
    pub fn upstream(&self) -> (r: &UpstreamUnits)
        ensures
            *r == self.spec_upstream(),
    {
        &self.upstream
    }
}

/// A drainage unit as the dataset declares it, before anything is carved off or
/// dissolved.
#[derive(Debug, PartialEq)]
pub struct PreMergeDrainageUnit {
    id: UnitId,
    level: Level,
    area: hfx::AreaKm2,
    up_area: Option<hfx::AreaKm2>,
    outlet: hfx::OutletCoord,
    geometry: MultiPolygon,
}

/// What a [`PreMergeDrainageUnit`] holds.
pub struct UnitRecord {
    pub id: UnitId,
    pub level: Level,
    pub area: hfx::AreaKm2,
    pub up_area: Option<hfx::AreaKm2>,
    pub outlet: hfx::OutletCoord,
    pub geometry: Seq<Rings>,
}

impl View for PreMergeDrainageUnit {
    type V = UnitRecord;

    closed spec fn view(&self) -> UnitRecord {
        UnitRecord {
            id: self.id,
            level: self.level,
            area: self.area,
            up_area: self.up_area,
            outlet: self.outlet,
            geometry: self.geometry@,
        }
    }
}

impl Clone for PreMergeDrainageUnit {
    fn clone(&self) -> (r: Self)
        ensures
            r@ == self@,
    {
        PreMergeDrainageUnit {
            id: self.id,
            level: self.level,
            area: self.area,
            up_area: self.up_area,
            outlet: self.outlet,
            geometry: self.geometry.clone(),
        }
    }
}

impl PreMergeDrainageUnit {
    /// The record of a unit, from the fields of its source.
    pub fn new(
        id: UnitId,
        level: Level,
        area: hfx::AreaKm2,
        up_area: Option<hfx::AreaKm2>,
        outlet: hfx::OutletCoord,
        geometry: MultiPolygon,
    ) -> (r: Self)
        ensures
            r@ == (UnitRecord { id, level, area, up_area, outlet, geometry: geometry@ }),
    {
        PreMergeDrainageUnit { id, level, area, up_area, outlet, geometry }
    }

    /// The record of a unit, for focused tests.
    pub fn new_for_test(
        id: UnitId,
        level: Level,
        area: hfx::AreaKm2,
        up_area: Option<hfx::AreaKm2>,
        outlet: hfx::OutletCoord,
        geometry: MultiPolygon,
    ) -> (r: Self)
        ensures
            r@ == (UnitRecord { id, level, area, up_area, outlet, geometry: geometry@ }),
    {
        Self::new(id, level, area, up_area, outlet, geometry)
    }

    pub fn id(&self) -> (r: UnitId)
        ensures
            r == self@.id,
    {
        self.id
    }

    pub fn level(&self) -> (r: Level)
        ensures
            r == self@.level,
    {
        self.level
    }

    /// The unit's own drainage area.
    pub fn area(&self) -> (r: hfx::AreaKm2)
        ensures
            r == self@.area,
    {
        self.area
    }

    /// The drainage area of everything upstream, if the dataset declares it.
    pub fn up_area(&self) -> (r: Option<hfx::AreaKm2>)
        ensures
            r == self@.up_area,
    {
        self.up_area
    }

    /// The declared outlet position.
    pub fn outlet(&self) -> (r: hfx::OutletCoord)
        ensures
            r == self@.outlet,
    {
        self.outlet
    }

    /// The whole unit, before refinement.
    pub fn geometry(&self) -> (r: &MultiPolygon)
        ensures
            r@ == self@.geometry,
    {
        &self.geometry
    }
}

/// The drainage units of a watershed, the terminal unit first and whole.
#[derive(Debug, PartialEq)]
pub struct PreMergeDrainageUnits {
    terminal: UnitId,
    selected_level: SelectedLevel,
    units: Vec<PreMergeDrainageUnit>,
}

/// What [`PreMergeDrainageUnits`] holds.
pub struct UnitsRecord {
    pub terminal: UnitId,
    pub level: SelectedLevel,
    pub units: Seq<UnitRecord>,
}

/// What a list of units holds.
pub open spec fn units_view(units: Seq<PreMergeDrainageUnit>) -> Seq<UnitRecord> {
    Seq::new(units.len(), |i: int| units[i]@)
}

impl UnitsRecord {
    /// The terminal unit comes first, and every unit is of the selected level.
    pub open spec fn is_terminal_first(self) -> bool {
        &&& self.units.len() > 0
        &&& self.units[0].id == self.terminal
        &&& forall|i: int|
            0 <= i < self.units.len() ==> (#[trigger] self.units[i]).level == self.level@
    }

    /// One of the units has the identifier `id`.
    pub open spec fn has_member(self, id: UnitId) -> bool {
        exists|i: int| 0 <= i < self.units.len() && (#[trigger] self.units[i]).id == id
    }
}

impl View for PreMergeDrainageUnits {
    type V = UnitsRecord;

    closed spec fn view(&self) -> UnitsRecord {
        UnitsRecord {
            terminal: self.terminal,
            level: self.selected_level,
            units: units_view(self.units@),
        }
    }
}

impl Clone for PreMergeDrainageUnits {
    fn clone(&self) -> (r: Self)
        ensures
            r@ == self@,
    {
        let mut units: Vec<PreMergeDrainageUnit> = Vec::new();
        for i in 0..self.units.len()
            invariant
                units@.len() == i,
                units_view(units@) =~= units_view(self.units@).take(i as int),
        {
            units.push(self.units[i].clone());
        }
        assert(units_view(units@) =~= units_view(self.units@));
        PreMergeDrainageUnits {
            terminal: self.terminal,
            selected_level: self.selected_level,
            units,
        }
    }
}

impl PreMergeDrainageUnits {
    /// The collection of records, the terminal unit first.
    pub fn new(
        terminal: UnitId,
        selected_level: SelectedLevel,
        units: Vec<PreMergeDrainageUnit>,
    ) -> (r: Self)
        ensures
            r@ == (UnitsRecord { terminal, level: selected_level, units: units_view(units@) }),
    {
        PreMergeDrainageUnits { terminal, selected_level, units }
    }

    /// The collection of records, for focused tests.
    pub fn new_for_test(
        terminal: UnitId,
        selected_level: SelectedLevel,
        units: Vec<PreMergeDrainageUnit>,
    ) -> (r: Self)
        ensures
            r@ == (UnitsRecord { terminal, level: selected_level, units: units_view(units@) }),
    {
        Self::new(terminal, selected_level, units)
    }

    /// The identifier of the terminal unit.
    pub fn terminal(&self) -> (r: UnitId)
        ensures
            r == self@.terminal,
    {
        self.terminal
    }

    /// The record of the terminal unit: the first one.
    pub fn terminal_unit(&self) -> (r: Option<&PreMergeDrainageUnit>)
        ensures
            match r {
                Some(unit) => self@.units.len() > 0 && unit@ == self@.units[0],
                None => self@.units.len() == 0,
            },
            self@.is_terminal_first() ==> (r matches Some(unit) && unit@.id == self@.terminal),
    {
        if self.units.len() == 0 {
            None
        } else {
            Some(&self.units[0])
        }
    }

    /// The level of all units.
    pub fn selected_level(&self) -> (r: SelectedLevel)
        ensures
            r == self@.level,
    {
        self.selected_level
    }

    /// The records, the terminal unit first.
    pub fn units(&self) -> (r: &[PreMergeDrainageUnit])
        ensures
            units_view(r@) == self@.units,
    {
        self.units.as_slice()
    }
}

/// The strategy that a refinement followed.
#[derive(Clone, Copy, Debug, PartialEq, Eq, Structural)]
pub enum RefinementStrategyName {
    /// Refine along a D8 raster where the dataset declares one.
    BestEffortD8IfPresent,
}

/// Why a best-effort refinement was skipped.
#[derive(Debug, PartialEq)]
pub enum BestEffortSkipReason {
    /// The dataset declares no D8 raster.
    NoD8AuxDeclared,
    /// The dataset declares no D8 raster, and the outlet was found by containment
    /// in a unit only.
    CoarseUnitOnlyNoD8AuxDeclared,
    /// The dataset declares a D8 raster that cannot be read.
    UnreadableD8AuxDeclared {
        /// The declared schema.
        schema: String,
    },
    /// The engine was given no raster source.
    NoRasterSourceProvided,
}

impl Clone for BestEffortSkipReason {
    fn clone(&self) -> (r: Self)
        ensures
            r == *self,
    {
        match self {
            BestEffortSkipReason::NoD8AuxDeclared => BestEffortSkipReason::NoD8AuxDeclared,
            BestEffortSkipReason::CoarseUnitOnlyNoD8AuxDeclared => {
                BestEffortSkipReason::CoarseUnitOnlyNoD8AuxDeclared
            },
            BestEffortSkipReason::UnreadableD8AuxDeclared { schema } => {
                BestEffortSkipReason::UnreadableD8AuxDeclared { schema: schema.clone() }
            },
            BestEffortSkipReason::NoRasterSourceProvided => {
                BestEffortSkipReason::NoRasterSourceProvided
            },
        }
    }
}

/// Where a skipped refinement comes from.
#[derive(Debug, PartialEq)]
pub struct BestEffortRefinementProvenance {
    pub strategy: RefinementStrategyName,
    pub why: BestEffortSkipReason,
}

impl Clone for BestEffortRefinementProvenance {
    fn clone(&self) -> (r: Self)
        ensures
            r == *self,
    {
        BestEffortRefinementProvenance { strategy: self.strategy, why: self.why.clone() }
    }
}

impl BestEffortRefinementProvenance {
    pub fn new(strategy: RefinementStrategyName, why: BestEffortSkipReason) -> (r: Self)
        ensures
            r.strategy == strategy,
            r.why == why,
    {
        BestEffortRefinementProvenance { strategy, why }
    }
}

/// Where an applied refinement comes from.
#[derive(Clone, Copy, Debug, PartialEq)]
pub struct AppliedRefinementProvenance {
    pub strategy: RefinementStrategyName,
}

/// The part of the terminal unit that drains through the refined outlet.
#[derive(Debug, PartialEq)]
pub struct ContainedTerminalPolygon {
    pub geometry: MultiPolygon,
}

impl Clone for ContainedTerminalPolygon {
    fn clone(&self) -> (r: Self)
        ensures
            r.geometry@ == self.geometry@,
    {
        ContainedTerminalPolygon { geometry: self.geometry.clone() }
    }
}

/// What terminal refinement came to.
#[derive(Debug, PartialEq)]
#[allow(inconsistent_fields)]
pub enum TerminalRefinement {
    /// The caller disabled refinement.
    Disabled,
    /// Refinement was skipped, visibly.
    BestEffortSkipped {
        /// Why it was skipped.
        provenance: BestEffortRefinementProvenance,
    },
    /// Refinement replaced the terminal unit's geometry.
    Applied {
        /// The refined outlet, at the centre of the raster cell it was seeded from.
        refined_outlet: Coord,
        /// The geometry that replaces the whole terminal unit.
        geometry: ContainedTerminalPolygon,
        /// Why refinement ran.
        provenance: AppliedRefinementProvenance,
    },
}

impl Clone for TerminalRefinement {
    fn clone(&self) -> (r: Self)
        ensures
            match (*self, r) {
                (TerminalRefinement::Disabled, TerminalRefinement::Disabled) => true,
                (
                    TerminalRefinement::BestEffortSkipped { provenance: a },
                    TerminalRefinement::BestEffortSkipped { provenance: b },
                ) => a == b,
                (
                    TerminalRefinement::Applied {
                        refined_outlet: a,
                        geometry: g,
                        provenance: p,
                    },
                    TerminalRefinement::Applied {
                        refined_outlet: b,
                        geometry: h,
                        provenance: q,
                    },
                ) => a == b && g.geometry@ == h.geometry@ && p == q,
                _ => false,
            },
    {
        match self {
            TerminalRefinement::Disabled => TerminalRefinement::Disabled,
            TerminalRefinement::BestEffortSkipped { provenance } => {
                TerminalRefinement::BestEffortSkipped { provenance: provenance.clone() }
            },
            TerminalRefinement::Applied { refined_outlet, geometry, provenance } => {
                TerminalRefinement::Applied {
                    refined_outlet: *refined_outlet,
                    geometry: geometry.clone(),
                    provenance: *provenance,
                }
            },
        }
    }
}

impl TerminalRefinement {
    /// A best-effort refinement was skipped for the reason `why`.
    pub open spec fn is_skip(self, why: BestEffortSkipReason) -> bool {
        self matches TerminalRefinement::BestEffortSkipped { provenance } && provenance.why == why
            && provenance.strategy == RefinementStrategyName::BestEffortD8IfPresent
    }

    /// A skip for a failure on the way to a D8 raster.
    pub fn best_effort_skipped(why: BestEffortSkipReason) -> (r: Self)
        ensures
            r.is_skip(why),
    {
        TerminalRefinement::BestEffortSkipped {
            provenance: BestEffortRefinementProvenance::new(
                RefinementStrategyName::BestEffortD8IfPresent,
                why,
            ),
        }
    }

    /// A skip because the dataset declares no D8 raster.
    pub fn best_effort_no_d8_aux_declared() -> (r: Self)
        ensures
            r.is_skip(BestEffortSkipReason::NoD8AuxDeclared),
    {
        Self::best_effort_skipped(BestEffortSkipReason::NoD8AuxDeclared)
    }

    /// A skip because the dataset declares no D8 raster, with an outlet that was
    /// found by containment only.
    pub fn best_effort_coarse_unit_only_no_d8_aux_declared() -> (r: Self)
        ensures
            r.is_skip(BestEffortSkipReason::CoarseUnitOnlyNoD8AuxDeclared),
    {
        Self::best_effort_skipped(BestEffortSkipReason::CoarseUnitOnlyNoD8AuxDeclared)
    }

    /// A skip because the declared D8 raster cannot be read.
    pub fn best_effort_unreadable_d8_aux_declared(schema: String) -> (r: Self)
        ensures
            r.is_skip(BestEffortSkipReason::UnreadableD8AuxDeclared { schema }),
    {
        Self::best_effort_skipped(BestEffortSkipReason::UnreadableD8AuxDeclared { schema })
    }

    /// A skip because the engine was given no raster source.
    pub fn best_effort_no_raster_source_provided() -> (r: Self)
        ensures
            r.is_skip(BestEffortSkipReason::NoRasterSourceProvided),
    {
        Self::best_effort_skipped(BestEffortSkipReason::NoRasterSourceProvided)
    }
}

/// The dissolved watershed and its geodesic area.
#[derive(Debug, PartialEq)]
pub struct DissolvedWatershed {
    geometry: MultiPolygon,
    area_km2: WatershedAreaKm2,
}

impl Clone for DissolvedWatershed {
    fn clone(&self) -> (r: Self)
        ensures
            r.spec_geometry() == self.spec_geometry(),
            r.spec_area() == self.spec_area(),
    {
        DissolvedWatershed { geometry: self.geometry.clone(), area_km2: self.area_km2 }
    }
}

impl DissolvedWatershed {
    pub closed spec fn spec_geometry(self) -> Seq<Rings> {
        self.geometry@
    }

    pub closed spec fn spec_area(self) -> WatershedAreaKm2 {
        self.area_km2
    }

    pub fn new(geometry: MultiPolygon, area_km2: WatershedAreaKm2) -> (r: Self)
        ensures
            r.spec_geometry() == geometry@,
            r.spec_area() == area_km2,
    {
        DissolvedWatershed { geometry, area_km2 }
    }

    pub fn geometry(&self) -> (r: &MultiPolygon)
        ensures
            r@ == self.spec_geometry(),
    {
        &self.geometry
    }

    pub fn area_km2(&self) -> (r: WatershedAreaKm2)
        ensures
            r == self.spec_area(),
    {
        self.area_km2
    }
}

/// A skipped refinement has one reason, which it carries; no other outcome has any.
pub proof fn law_skip_carries_its_reason(
    refinement: TerminalRefinement,
    why: BestEffortSkipReason,
    other: BestEffortSkipReason,
)
    requires
        refinement.is_skip(why),
    ensures
        refinement is BestEffortSkipped,
        refinement->BestEffortSkipped_provenance.why == why,
        refinement.is_skip(other) <==> other == why,
{
}

/// Among units of one level with the terminal one first, the terminal unit is a
/// member, and an identifier belongs to a member exactly where some unit has it.
pub proof fn law_terminal_unit_is_a_member(units: UnitsRecord, unit: UnitRecord)
    requires
        units.is_terminal_first(),
    ensures
        units.has_member(units.terminal),
        forall|i: int| 0 <= i < units.units.len() ==> units.has_member((#[trigger] units.units[i]).id),
        units.units.contains(unit) ==> unit.level == units.level@ && units.has_member(unit.id),
{
    assert(units.units[0].id == units.terminal);
}

} // verus!
