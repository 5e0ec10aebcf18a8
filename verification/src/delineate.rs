//! The course of a delineation: what is asked of the engine, in which order, and
//! what is answered when it fails.
//!
//! The engine reads the dataset, so it runs outside this library. A
//! [`Delineation`] says what to ask of it next and takes in whether that went well.
use vstd::prelude::*;

use crate::fabric::StemRole;
use crate::fabric::UnitId;
use crate::network::carrying;
use crate::network::NetworkRecord;
use crate::network::ReachRecord;
use crate::network::UpstreamReaches;
use crate::request::Query;
use crate::scalar::law_unsigned_order;
use crate::scalar::Scalar;
use crate::staged::LevelSelection;
use crate::staged::RefinementMode;
use crate::strahler::checked_strahler_orders;
use crate::strahler::is_acyclic;
use crate::strahler::is_ordering;
use crate::strahler::is_tally;
use crate::strahler::law_tally_counts_every_unit;
use crate::strahler::outlet_of;
use crate::strahler::UnitLink;
use crate::text::same_text;

verus! {

// ---- what is asked ----

/// The search radii that are tried in turn where none is asked for: 100, 300,
/// 1000, 5000 and 20000 metres.
pub open spec fn default_ladder() -> Seq<Scalar> {
    seq![
        Scalar { bits: 0x4059_0000_0000_0000 },
        Scalar { bits: 0x4072_c000_0000_0000 },
        Scalar { bits: 0x408f_4000_0000_0000 },
        Scalar { bits: 0x40b3_8800_0000_0000 },
        Scalar { bits: 0x40d3_8800_0000_0000 },
    ]
}

/// The search radii that are tried in turn where none is asked for.
pub fn radius_ladder() -> (r: Vec<Scalar>)
    ensures
        r@ == default_ladder(),
{
    let mut ladder: Vec<Scalar> = Vec::new();
    ladder.push(Scalar::from_bits(0x4059_0000_0000_0000));
    ladder.push(Scalar::from_bits(0x4072_c000_0000_0000));
    ladder.push(Scalar::from_bits(0x408f_4000_0000_0000));
    ladder.push(Scalar::from_bits(0x40b3_8800_0000_0000));
    ladder.push(Scalar::from_bits(0x40d3_8800_0000_0000));
    assert(ladder@ =~= default_ladder());
    ladder
}

/// What a delineation is asked for.
#[derive(Debug)]
pub struct Plan {
    lat: Scalar,
    lon: Scalar,
    distance_first: bool,
    ladder: Vec<Scalar>,
}

/// What a [`Plan`] holds.
pub struct PlanRecord {
    pub lat: Scalar,
    pub lon: Scalar,
    pub distance_first: bool,
    pub ladder: Seq<Scalar>,
}

impl View for Plan {
    type V = PlanRecord;

    closed spec fn view(&self) -> PlanRecord {
        PlanRecord {
            lat: self.lat,
            lon: self.lon,
            distance_first: self.distance_first,
            ladder: self.ladder@,
        }
    }
}

/// The radii to try: the one asked for, and otherwise the default ones.
pub open spec fn ladder_of(radius: Option<Scalar>) -> Seq<Scalar> {
    match radius {
        Some(metres) => seq![metres],
        None => default_ladder(),
    }
}

/// What is asked for by the values of a query. A position is required.
pub open spec fn planned(
    lat: Option<Scalar>,
    lon: Option<Scalar>,
    strategy: Option<Seq<char>>,
    radius: Option<Scalar>,
) -> Option<PlanRecord> {
    match (lat, lon) {
        (Some(lat), Some(lon)) => Some(
            PlanRecord {
                lat,
                lon,
                distance_first: strategy == Some("distance"@),
                ladder: ladder_of(radius),
            },
        ),
        _ => None,
    }
}

spec fn seen(text: Option<&String>) -> Option<Seq<char>> {
    match text {
        Some(text) => Some(text@),
        None => None,
    }
}

impl Plan {
    /// There is a radius to try.
    #[verifier::type_invariant]
    spec fn has_a_rung(self) -> bool {
        self.ladder@.len() > 0
    }

    pub fn lat(&self) -> (r: Scalar)
        ensures
            r == self@.lat,
    {
        self.lat
    }

    pub fn lon(&self) -> (r: Scalar)
        ensures
            r == self@.lon,
    {
        self.lon
    }

    /// Whether the nearest candidate counts before the heaviest.
    pub fn distance_first(&self) -> (r: bool)
        ensures
            r == self@.distance_first,
    {
        self.distance_first
    }

    /// The radii to try, in order.
    pub fn ladder(&self) -> (r: &Vec<Scalar>)
        ensures
            r@ == self@.ladder,
            r@.len() > 0,
    {
        proof {
            use_type_invariant(self);
        }
        &self.ladder
    }
}

/// A plan from the values of a query; none without a position.
pub fn plan(
    lat: Option<Scalar>,
    lon: Option<Scalar>,
    strategy: Option<&String>,
    radius: Option<Scalar>,
) -> (r: Option<Plan>)
    ensures
        match r {
            Some(plan) => planned(
                lat,
                lon,
                (match strategy {
                    Some(text) => Some(text@),
                    None => None,
                }),
                radius,
            ) == Some(plan@),
            None => lat is None || lon is None,
        },
{
    match (lat, lon) {
        (Some(lat), Some(lon)) => {
            let distance_first = match strategy {
                Some(text) => same_text(text.as_str(), "distance"),
                None => false,
            };
            let ladder = match radius {
                Some(metres) => {
                    let mut ladder: Vec<Scalar> = Vec::new();
                    ladder.push(metres);
                    assert(ladder@ =~= seq![metres]);
                    ladder
                },
                None => radius_ladder(),
            };
            Some(Plan { lat, lon, distance_first, ladder })
        },
        _ => None,
    }
}

/// `value` is what `number` reads from the entry of `key`; nothing where there is
/// no such entry.
pub open spec fn is_read<N>(
    number: N,
    query: Map<Seq<char>, Seq<char>>,
    key: Seq<char>,
    value: Option<Scalar>,
) -> bool where N: Fn(&String) -> Option<Scalar> {
    if query.contains_key(key) {
        exists|text: String|
            text@ == query[key] && #[trigger] call_ensures(number, (&text,), value)
    } else {
        value is None
    }
}

fn read_number<N>(query: &Query, key: &str, number: &N) -> (r: Option<Scalar>) where
    N: Fn(&String) -> Option<Scalar>,

    requires
        forall|text: &String| call_requires(number, (text,)),
    ensures
        is_read(*number, query@, key@, r),
{
    match query.get(key) {
        Some(text) => number(text),
        None => None,
    }
}

/// The entry of `key`, if there is one.
pub open spec fn entry(query: Map<Seq<char>, Seq<char>>, key: Seq<char>) -> Option<Seq<char>> {
    if query.contains_key(key) {
        Some(query[key])
    } else {
        None
    }
}

/// The values read from a query, and what they ask for.
pub open spec fn is_plan_of<N>(
    number: N,
    query: Map<Seq<char>, Seq<char>>,
    lat: Option<Scalar>,
    lon: Option<Scalar>,
    radius: Option<Scalar>,
    result: Option<PlanRecord>,
) -> bool where N: Fn(&String) -> Option<Scalar> {
    &&& is_read(number, query, "lat"@, lat)
    &&& is_read(number, query, "lon"@, lon)
    &&& is_read(number, query, "radius"@, radius)
    &&& result == planned(lat, lon, entry(query, "strategy"@), radius)
}

/// What the plan holds, if there is one.
pub open spec fn plan_in(result: Result<Plan, Refusal>) -> Option<PlanRecord> {
    match result {
        Ok(plan) => Some(plan@),
        Err(_) => None,
    }
}

/// What a query asks for; a refusal where it names no position.
///
/// `number` reads a number from a text, if the text is one.
pub fn plan_query<N>(query: &Query, number: &N) -> (r: Result<Plan, Refusal>) where
    N: Fn(&String) -> Option<Scalar>,

    requires
        forall|text: &String| call_requires(number, (text,)),
    ensures
        exists|lat: Option<Scalar>, lon: Option<Scalar>, radius: Option<Scalar>| #[trigger]
            is_plan_of(
                *number,
                query@,
                lat,
                lon,
                radius,
                plan_in(r),
            ),
        r matches Err(refusal) ==> refusal matches Refusal::Invalid { message } && message@
            == "lat and lon are required"@,
{
    let lat = read_number(query, "lat", number);
    let lon = read_number(query, "lon", number);
    let radius = read_number(query, "radius", number);
    let strategy = query.get("strategy");
    let r = match plan(lat, lon, strategy, radius) {
        Some(plan) => Ok(plan),
        None => Err(Refusal::Invalid { message: "lat and lon are required".to_owned() }),
    };
    proof {
        assert(seen(strategy) == entry(query@, "strategy"@));
        assert(is_plan_of(*number, query@, lat, lon, radius, plan_in(r)));
    }
    r
}

// ---- what is answered ----

/// Why a delineation has no result.
#[derive(Debug)]
pub enum Refusal {
    /// The request asks for something that cannot be.
    Invalid { message: String },
    /// The engine failed.
    Failed { message: String },
    /// No outlet was found within any radius; this was the last.
    RadiusExhausted { message: String, metres: Scalar },
}

impl Refusal {
    /// The status code of the answer.
    pub fn status(&self) -> (r: u16)
        ensures
            r == if self is Invalid {
                400u16
            } else {
                200u16
            },
    {
        match self {
            Refusal::Invalid { .. } => 400,
            _ => 200,
        }
    }

    /// Whether the answer says that the delineation went well: that it did not,
    /// where one was attempted, and nothing where the request was invalid.
    pub fn ok(&self) -> (r: Option<bool>)
        ensures
            r == if self is Invalid {
                None::<bool>
            } else {
                Some(false)
            },
    {
        match self {
            Refusal::Invalid { .. } => None,
            _ => Some(false),
        }
    }

    /// The last radius, where every radius was tried.
    pub fn radius_exhausted(&self) -> (r: Option<Scalar>)
        ensures
            r == match *self {
                Refusal::RadiusExhausted { metres, .. } => Some(metres),
                _ => None,
            },
    {
        match self {
            Refusal::RadiusExhausted { metres, .. } => Some(*metres),
            _ => None,
        }
    }

    pub open spec fn spec_message(self) -> Seq<char> {
        match self {
            Refusal::Invalid { message } => message@,
            Refusal::Failed { message } => message@,
            Refusal::RadiusExhausted { message, .. } => message@,
        }
    }

    /// What went wrong.
    pub fn message(&self) -> (r: &str)
        ensures
            r@ == self.spec_message(),
    {
        match self {
            Refusal::Invalid { message } => message.as_str(),
            Refusal::Failed { message } => message.as_str(),
            Refusal::RadiusExhausted { message, .. } => message.as_str(),
        }
    }
}

// ---- the course ----

/// What the engine does once it has found the outlet.
#[derive(Clone, Copy, Debug, PartialEq, Eq, Structural)]
pub enum Task {
    /// Collect what lies upstream of the outlet.
    TraverseUpstream,
    /// Read the drainage units.
    ProduceUnits,
    /// Refine the terminal unit.
    RefineTerminal,
    /// Dissolve the units into one watershed.
    DissolveWatershed,
    /// Read the channel network.
    CollectReaches,
    /// Measure the watershed's boundary.
    MeasurePerimeter,
}

/// How far a delineation has come. A rung is an index into the radii.
#[derive(Debug)]
pub enum Stage {
    /// The engine is to select the level.
    SelectLevel,
    /// The engine is to accept the radius.
    Configure { rung: usize },
    /// The engine is to look for the outlet within the radius.
    Resolve { rung: usize },
    /// The engine is to do a task; the outlet was found within the radius.
    Run { rung: usize, task: Task },
    /// Everything is done; the outlet was found within the radius.
    Done { rung: usize },
    /// There is no result.
    Refused(Refusal),
}

/// How what was asked of the engine went.
#[derive(Debug)]
pub enum Event {
    Succeeded,
    Failed(String),
}

/// The task that follows, if any does.
pub open spec fn task_after(task: Task) -> Option<Task> {
    match task {
        Task::TraverseUpstream => Some(Task::ProduceUnits),
        Task::ProduceUnits => Some(Task::RefineTerminal),
        Task::RefineTerminal => Some(Task::DissolveWatershed),
        Task::DissolveWatershed => Some(Task::CollectReaches),
        Task::CollectReaches => Some(Task::MeasurePerimeter),
        Task::MeasurePerimeter => None,
    }
}

/// The stage that follows when the engine did what `stage` asks.
pub open spec fn after_success(stage: Stage) -> Stage {
    match stage {
        Stage::SelectLevel => Stage::Configure { rung: 0 },
        Stage::Configure { rung } => Stage::Resolve { rung },
        Stage::Resolve { rung } => Stage::Run { rung, task: Task::TraverseUpstream },
        Stage::Run { rung, task } => match task_after(task) {
            Some(task) => Stage::Run { rung, task },
            None => Stage::Done { rung },
        },
        Stage::Done { .. } => stage,
        Stage::Refused(_) => stage,
    }
}

/// The stage that follows when the engine failed to do what `stage` asks.
pub open spec fn after_failure(ladder: Seq<Scalar>, stage: Stage, message: String) -> Stage {
    match stage {
        Stage::SelectLevel => Stage::Refused(Refusal::Failed { message }),
        Stage::Configure { .. } => Stage::Refused(Refusal::Invalid { message }),
        Stage::Resolve { rung } => if rung + 1 == ladder.len() {
            Stage::Refused(Refusal::RadiusExhausted { message, metres: ladder[rung as int] })
        } else {
            Stage::Configure { rung: (rung + 1) as usize }
        },
        Stage::Run { .. } => Stage::Refused(Refusal::Failed { message }),
        Stage::Done { .. } => stage,
        Stage::Refused(_) => stage,
    }
}

/// The stage that follows `stage`.
pub open spec fn after(ladder: Seq<Scalar>, stage: Stage, event: Event) -> Stage {
    match event {
        Event::Succeeded => after_success(stage),
        Event::Failed(message) => after_failure(ladder, stage, message),
    }
}

/// The rung that a stage speaks of is one of the ladder's.
pub open spec fn fits(ladder: Seq<Scalar>, stage: Stage) -> bool {
    match stage {
        Stage::SelectLevel => true,
        Stage::Configure { rung } => rung < ladder.len(),
        Stage::Resolve { rung } => rung < ladder.len(),
        Stage::Run { rung, .. } => rung < ladder.len(),
        Stage::Done { rung } => rung < ladder.len(),
        Stage::Refused(_) => true,
    }
}

/// The radius at a rung is wider than the first that is tried.
pub open spec fn is_escalated(ladder: Seq<Scalar>, rung: int) -> bool {
    ladder[0].less(ladder[rung]) || (ladder.len() > 1 && default_ladder()[0].less(ladder[rung]))
}

/// A delineation under way.
pub struct Delineation {
    plan: Plan,
    stage: Stage,
}

impl Delineation {
    #[verifier::type_invariant]
    spec fn is_on_the_ladder(self) -> bool {
        fits(self.plan@.ladder, self.stage)
    }

    pub closed spec fn spec_plan(self) -> PlanRecord {
        self.plan@
    }

    pub closed spec fn spec_stage(self) -> Stage {
        self.stage
    }

    /// Begins a delineation.
    pub fn begin(plan: Plan) -> (r: Self)
        ensures
            r.spec_plan() == plan@,
            r.spec_stage() == Stage::SelectLevel,
    {
        Delineation { plan, stage: Stage::SelectLevel }
    }

    /// What is asked for.
    pub fn plan(&self) -> (r: &Plan)
        ensures
            r@ == self.spec_plan(),
    {
        &self.plan
    }

    /// The level on which the engine is to run: the finest.
    pub fn level_selection(&self) -> (r: LevelSelection)
        ensures
            r == LevelSelection::Finest,
    {
        LevelSelection::Finest
    }

    /// How the engine is to refine the terminal unit: not at all, so that every
    /// area is a union of whole units.
    pub fn refinement_mode(&self) -> (r: RefinementMode)
        ensures
            r == RefinementMode::Disabled,
    {
        RefinementMode::Disabled
    }

    /// What the engine is to do next.
    pub fn stage(&self) -> (r: &Stage)
        ensures
            *r == self.spec_stage(),
            fits(self.spec_plan().ladder, *r),
    {
        proof {
            use_type_invariant(self);
        }
        &self.stage
    }

    /// The radius of a rung.
    pub fn radius(&self, rung: usize) -> (r: Scalar)
        requires
            rung < self.spec_plan().ladder.len(),
        ensures
            r == self.spec_plan().ladder[rung as int],
    {
        self.plan.ladder()[rung]
    }

    /// Whether the radius of a rung is wider than the first that is tried.
    pub fn escalated(&self, rung: usize) -> (r: bool)
        requires
            rung < self.spec_plan().ladder.len(),
        ensures
            r == is_escalated(self.spec_plan().ladder, rung as int),
    {
        let ladder = self.plan.ladder();
        let default = radius_ladder();
        let used = ladder[rung];
        ladder[0].lt(used) || (ladder.len() > 1 && default[0].lt(used))
    }

    /// Takes in how what the stage asks of the engine went.
    pub fn advance(self, event: Event) -> (r: Self)
        ensures
            r.spec_plan() == self.spec_plan(),
            r.spec_stage() == after(self.spec_plan().ladder, self.spec_stage(), event),
    {
        proof {
            use_type_invariant(&self);
        }
        let Delineation { plan, stage } = self;
        let ladder = plan.ladder();
        let rungs = ladder.len();
        assert(fits(ladder@, stage));
        let next = match event {
            Event::Succeeded => match stage {
                Stage::SelectLevel => Stage::Configure { rung: 0 },
                Stage::Configure { rung } => Stage::Resolve { rung },
                Stage::Resolve { rung } => Stage::Run { rung, task: Task::TraverseUpstream },
                Stage::Run { rung, task } => match task {
                    Task::TraverseUpstream => Stage::Run { rung, task: Task::ProduceUnits },
                    Task::ProduceUnits => Stage::Run { rung, task: Task::RefineTerminal },
                    Task::RefineTerminal => Stage::Run { rung, task: Task::DissolveWatershed },
                    Task::DissolveWatershed => Stage::Run { rung, task: Task::CollectReaches },
                    Task::CollectReaches => Stage::Run { rung, task: Task::MeasurePerimeter },
                    Task::MeasurePerimeter => Stage::Done { rung },
                },
                Stage::Done { rung } => Stage::Done { rung },
                Stage::Refused(refusal) => Stage::Refused(refusal),
            },
            Event::Failed(message) => match stage {
                Stage::SelectLevel => Stage::Refused(Refusal::Failed { message }),
                Stage::Configure { .. } => Stage::Refused(Refusal::Invalid { message }),
                Stage::Resolve { rung } => if rung + 1 == rungs {
                    Stage::Refused(Refusal::RadiusExhausted { message, metres: ladder[rung] })
                } else {
                    Stage::Configure { rung: rung + 1 }
                },
                Stage::Run { .. } => Stage::Refused(Refusal::Failed { message }),
                Stage::Done { rung } => Stage::Done { rung },
                Stage::Refused(refusal) => Stage::Refused(refusal),
            },
        };
        Delineation { plan, stage: next }
    }
}

// ---- what holds of every course ----

/// The stage after a series of events.
pub open spec fn reached(ladder: Seq<Scalar>, events: Seq<Event>) -> Stage
    decreases events.len(),
{
    if events.len() == 0 {
        Stage::SelectLevel
    } else {
        after(ladder, reached(ladder, events.drop_last()), events.last())
    }
}

/// The level was selected, and then `rungs` radii were accepted and failed to
/// lead to an outlet, one after another.
pub open spec fn tried(events: Seq<Event>, rungs: nat) -> bool {
    &&& events.len() == 1 + 2 * rungs
    &&& events[0] is Succeeded
    &&& forall|j: int| 0 <= j < rungs ==> #[trigger] rung_failed(events, j)
}

/// The radius at rung `j` was accepted and failed to lead to an outlet.
pub open spec fn rung_failed(events: Seq<Event>, j: int) -> bool {
    events[1 + 2 * j] is Succeeded && events[2 + 2 * j] is Failed
}

/// No course leaves the ladder.
pub proof fn law_rungs_are_on_the_ladder(ladder: Seq<Scalar>, events: Seq<Event>)
    requires
        ladder.len() > 0,
        ladder.len() <= usize::MAX,
    ensures
        fits(ladder, reached(ladder, events)),
    decreases events.len(),
{
    if events.len() > 0 {
        law_rungs_are_on_the_ladder(ladder, events.drop_last());
    }
}

/// The radii are tried in the order of the ladder: one comes up for acceptance
/// only after all before it failed, and is used for a search only once accepted.
pub proof fn law_radii_are_tried_in_order(ladder: Seq<Scalar>, events: Seq<Event>)
    requires
        ladder.len() > 0,
        ladder.len() <= usize::MAX,
    ensures
        reached(ladder, events) matches Stage::Configure { rung } ==> tried(events, rung as nat),
        reached(ladder, events) matches Stage::Resolve { rung } ==> {
            &&& events.len() > 0
            &&& tried(events.drop_last(), rung as nat)
            &&& events.last() is Succeeded
        },
    decreases events.len(),
{
    law_rungs_are_on_the_ladder(ladder, events);
    if events.len() > 0 {
        let before = events.drop_last();
        law_rungs_are_on_the_ladder(ladder, before);
        law_radii_are_tried_in_order(ladder, before);
        if let Stage::Configure { rung } = reached(ladder, events) {
            if rung > 0 {
                let searched = before.drop_last();
                assert forall|j: int| 0 <= j < rung implies #[trigger] rung_failed(events, j) by {
                    if j < rung - 1 {
                        assert(rung_failed(searched, j));
                        assert(events[1 + 2 * j] == searched[1 + 2 * j]);
                        assert(events[2 + 2 * j] == searched[2 + 2 * j]);
                    } else {
                        assert(events[1 + 2 * j] == before.last());
                        assert(events[2 + 2 * j] == events.last());
                    }
                }
                assert(events[0] == searched[0]);
            }
        }
    }
}

/// As long as accepted radii fail, the next one of the ladder comes up.
pub proof fn law_search_walks_up(ladder: Seq<Scalar>, events: Seq<Event>, rung: usize)
    requires
        rung < ladder.len(),
        ladder.len() <= usize::MAX,
        tried(events, rung as nat),
    ensures
        reached(ladder, events) == (Stage::Configure { rung }),
    decreases rung,
{
    if rung == 0 {
        assert(events.drop_last() =~= Seq::<Event>::empty());
        assert(reached(ladder, events.drop_last()) == Stage::SelectLevel);
    } else {
        let before = events.drop_last();
        let searched = before.drop_last();
        let last = (rung - 1) as usize;
        assert(rung_failed(events, last as int));
        assert forall|j: int| 0 <= j < last implies #[trigger] rung_failed(searched, j) by {
            assert(rung_failed(events, j));
        }
        law_search_walks_up(ladder, searched, last);
        assert(before.last() == events[1 + 2 * last]);
        assert(events.last() == events[2 + 2 * last]);
        assert(reached(ladder, before) == Stage::Resolve { rung: last });
    }
}

/// The first radius that leads to an outlet is the one that is used.
pub proof fn law_first_success_is_used(ladder: Seq<Scalar>, events: Seq<Event>, rung: usize)
    requires
        rung < ladder.len(),
        ladder.len() <= usize::MAX,
        tried(events, rung as nat),
    ensures
        reached(ladder, events.push(Event::Succeeded).push(Event::Succeeded)) == (Stage::Run {
            rung,
            task: Task::TraverseUpstream,
        }),
{
    law_search_walks_up(ladder, events, rung);
    let accepted = events.push(Event::Succeeded);
    let found = accepted.push(Event::Succeeded);
    assert(accepted.drop_last() =~= events);
    assert(reached(ladder, accepted) == Stage::Resolve { rung });
    assert(found.drop_last() =~= accepted);
}

/// A radius that was asked for is honoured exactly: no other is ever used.
pub proof fn law_asked_radius_is_honoured(metres: Scalar, events: Seq<Event>)
    ensures
        match reached(ladder_of(Some(metres)), events) {
            Stage::Configure { rung } => rung == 0,
            Stage::Resolve { rung } => rung == 0,
            Stage::Run { rung, .. } => rung == 0,
            Stage::Done { rung } => rung == 0,
            _ => true,
        },
        ladder_of(Some(metres))[0] == metres,
        !is_escalated(ladder_of(Some(metres)), 0),
{
    law_rungs_are_on_the_ladder(ladder_of(Some(metres)), events);
}

/// Where no radius is asked for, a delineation is escalated exactly when its
/// outlet was not found within the first radius.
pub proof fn law_escalated_past_the_first(rung: int)
    requires
        0 <= rung < default_ladder().len(),
    ensures
        is_escalated(default_ladder(), rung) <==> rung > 0,
{
    law_unsigned_order(default_ladder()[0], default_ladder()[rung]);
}

/// A refusal stands, and so does a result.
pub proof fn law_outcome_stands(ladder: Seq<Scalar>, events: Seq<Event>, event: Event)
    requires
        reached(ladder, events) is Done || reached(ladder, events) is Refused,
    ensures
        reached(ladder, events.push(event)) == reached(ladder, events),
{
    assert(events.push(event).drop_last() =~= events);
}

/// The search is given up only when every radius of the ladder failed. The
/// refusal then names the last radius and says why that one failed.
pub proof fn law_exhausted_only_after_all(ladder: Seq<Scalar>, events: Seq<Event>)
    requires
        ladder.len() > 0,
        ladder.len() <= usize::MAX,
    ensures
        reached(ladder, events) matches Stage::Refused(
            Refusal::RadiusExhausted { message, metres },
        ) ==> {
            let n = ladder.len();
            &&& events.len() >= 1 + 2 * n
            &&& tried(events.take(1 + 2 * n as int), n)
            &&& events[2 * n as int] == Event::Failed(message)
            &&& metres == ladder.last()
        },
    decreases events.len(),
{
    let n = ladder.len();
    if events.len() > 0 {
        let before = events.drop_last();
        law_exhausted_only_after_all(ladder, before);
        law_radii_are_tried_in_order(ladder, before);
        law_rungs_are_on_the_ladder(ladder, before);
        if let Stage::Refused(Refusal::RadiusExhausted { message, metres }) = reached(
            ladder,
            events,
        ) {
            let upto = events.take(1 + 2 * n as int);
            if reached(ladder, before) is Refused {
                assert(upto =~= before.take(1 + 2 * n as int));
            } else {
                let searched = before.drop_last();
                assert(upto =~= events);
                assert forall|j: int| 0 <= j < n implies #[trigger] rung_failed(upto, j) by {
                    if j < n - 1 {
                        assert(rung_failed(searched, j));
                        assert(events[1 + 2 * j] == searched[1 + 2 * j]);
                        assert(events[2 + 2 * j] == searched[2 + 2 * j]);
                    } else {
                        assert(events[1 + 2 * j] == before.last());
                        assert(events[2 + 2 * j] == events.last());
                    }
                }
                assert(events[0] == searched[0]);
            }
        }
    }
}

/// The number of events after which a delineation that has come to `stage` is
/// over for certain.
pub open spec fn remaining(ladder: Seq<Scalar>, stage: Stage) -> int {
    let n = ladder.len() as int;
    match stage {
        Stage::SelectLevel => 2 * n + 7,
        Stage::Configure { rung } => 2 * (n - rung) + 6,
        Stage::Resolve { rung } => 2 * (n - rung) + 5,
        Stage::Run { task, .. } => match task {
            Task::TraverseUpstream => 6,
            Task::ProduceUnits => 5,
            Task::RefineTerminal => 4,
            Task::DissolveWatershed => 3,
            Task::CollectReaches => 2,
            Task::MeasurePerimeter => 1,
        },
        Stage::Done { .. } => 0,
        Stage::Refused(_) => 0,
    }
}

proof fn lemma_remaining_shrinks(ladder: Seq<Scalar>, events: Seq<Event>)
    requires
        ladder.len() > 0,
        ladder.len() <= usize::MAX,
    ensures
        0 <= remaining(ladder, reached(ladder, events)),
        remaining(ladder, reached(ladder, events)) <= 0 || remaining(
            ladder,
            reached(ladder, events),
        ) + events.len() <= 2 * ladder.len() + 7,
    decreases events.len(),
{
    law_rungs_are_on_the_ladder(ladder, events);
    if events.len() > 0 {
        lemma_remaining_shrinks(ladder, events.drop_last());
        law_rungs_are_on_the_ladder(ladder, events.drop_last());
    }
}

/// Every delineation comes to an end: with a result or a refusal.
pub proof fn law_delineation_ends(ladder: Seq<Scalar>, events: Seq<Event>)
    requires
        ladder.len() > 0,
        ladder.len() <= usize::MAX,
        events.len() >= 2 * ladder.len() + 7,
    ensures
        reached(ladder, events) is Done || reached(ladder, events) is Refused,
{
    lemma_remaining_shrinks(ladder, events);
    law_rungs_are_on_the_ladder(ladder, events);
}

/// The number of the task among the engine's tasks.
pub open spec fn task_number(task: Task) -> int {
    match task {
        Task::TraverseUpstream => 0,
        Task::ProduceUnits => 1,
        Task::RefineTerminal => 2,
        Task::DissolveWatershed => 3,
        Task::CollectReaches => 4,
        Task::MeasurePerimeter => 5,
    }
}

/// The outlet was found at rung `rung`, and `tasks` tasks were done after that.
pub open spec fn went_well(events: Seq<Event>, rung: nat, tasks: int) -> bool {
    &&& events.len() >= 3 + 2 * rung + tasks
    &&& tried(events.take(1 + 2 * rung as int), rung)
    &&& forall|j: int|
        1 + 2 * rung <= j < 3 + 2 * rung + tasks ==> (#[trigger] events[j]) is Succeeded
}

/// There is a result only if the outlet was found and every task done.
pub proof fn law_result_needs_every_task(ladder: Seq<Scalar>, events: Seq<Event>)
    requires
        ladder.len() > 0,
        ladder.len() <= usize::MAX,
    ensures
        reached(ladder, events) matches Stage::Run { rung, task } ==> {
            &&& events.len() == 3 + 2 * rung + task_number(task)
            &&& went_well(events, rung as nat, task_number(task))
        },
        reached(ladder, events) matches Stage::Done { rung } ==> went_well(events, rung as nat, 6),
    decreases events.len(),
{
    if events.len() > 0 {
        let before = events.drop_last();
        law_result_needs_every_task(ladder, before);
        law_radii_are_tried_in_order(ladder, before);
        match reached(ladder, before) {
            Stage::Resolve { rung } => {
                lemma_went_well_on(events, rung as nat, 0);
            },
            Stage::Run { rung, task } => {
                lemma_went_well_on(events, rung as nat, task_number(task) + 1);
            },
            Stage::Done { rung } => {
                assert(events.take(1 + 2 * rung as int) =~= before.take(1 + 2 * rung as int));
                assert forall|j: int| 1 + 2 * rung <= j < 3 + 2 * rung + 6 implies (
                #[trigger] events[j]) is Succeeded by {
                    assert(events[j] == before[j]);
                }
            },
            _ => {},
        }
    }
}

/// One more success.
proof fn lemma_went_well_on(events: Seq<Event>, rung: nat, tasks: int)
    requires
        events.len() == 3 + 2 * rung + tasks,
        tasks == 0 ==> tried(events.drop_last().drop_last(), rung) && events.drop_last().last()
            is Succeeded,
        tasks > 0 ==> went_well(events.drop_last(), rung, tasks - 1),
        tasks >= 0,
    ensures
        events.last() is Succeeded ==> went_well(events, rung, tasks),
{
    let before = events.drop_last();
    if events.last() is Succeeded {
        if tasks == 0 {
            assert(events.take(1 + 2 * rung as int) =~= before.drop_last());
        } else {
            assert(events.take(1 + 2 * rung as int) =~= before.take(1 + 2 * rung as int));
        }
        assert forall|j: int| 1 + 2 * rung <= j < 3 + 2 * rung + tasks implies (
        #[trigger] events[j]) is Succeeded by {
            if j < before.len() {
                assert(events[j] == before[j]);
                assert(tasks == 0 ==> before[j] == before.last());
            }
        }
    }
}

/// A delineation is refused as invalid only where the engine does not accept a
/// radius.
pub proof fn law_invalid_only_for_a_radius(ladder: Seq<Scalar>, events: Seq<Event>, event: Event)
    requires
        !(reached(ladder, events) is Refused),
    ensures
        reached(ladder, events.push(event)) matches Stage::Refused(Refusal::Invalid { message })
            ==> reached(ladder, events) is Configure && event == Event::Failed(message),
{
    assert(events.push(event).drop_last() =~= events);
}

// ---- what is counted ----

/// The counts that a result is reported with.
#[derive(Debug)]
pub struct Summary {
    /// Units upstream of the outlet, the terminal one included.
    pub finest_units: usize,
    /// Units of the watershed.
    pub units: usize,
    /// The number of units of each Strahler order, from the first order on.
    pub order_counts: Vec<usize>,
    /// The highest order; zero where there is none.
    pub max_strahler_order: usize,
    /// The number of first-order units that the texture ratio counts.
    pub first_order_units: usize,
    /// Reaches of the network.
    pub reaches: usize,
    pub mainstem: usize,
    pub tributary: usize,
    pub distributary: usize,
}

/// `summary` counts the units by their Strahler order and the reaches by their
/// role.
pub open spec fn is_summary(
    finest_units: usize,
    units: usize,
    terminal: UnitId,
    links: Seq<UnitLink>,
    network: NetworkRecord,
    summary: Summary,
) -> bool {
    &&& summary.finest_units == finest_units
    &&& summary.units == units
    &&& exists|orders: Map<i64, u32>| #[trigger]
        is_ordering(links, outlet_of(terminal@, links), orders) && is_tally(
            orders,
            summary.order_counts@,
        )
    &&& summary.max_strahler_order == summary.order_counts@.len()
    &&& summary.first_order_units == if summary.order_counts@.len() > 0 {
        summary.order_counts@[0]
    } else {
        1usize
    }
    &&& summary.reaches == network.reaches.len()
    &&& summary.mainstem == carrying(network.reaches, StemRole::Mainstem).len()
    &&& summary.tributary == carrying(network.reaches, StemRole::Tributary).len()
    &&& summary.distributary == carrying(network.reaches, StemRole::Distributary).len()
}

/// Counts what a result is reported with; nothing where the units drain in a
/// circle.
pub fn summarise(
    finest_units: usize,
    units: usize,
    terminal: UnitId,
    links: &Vec<UnitLink>,
    network: &UpstreamReaches,
) -> (r: Option<Summary>)
    ensures
        r is Some <==> is_acyclic(links@, outlet_of(terminal@, links@)),
        r matches Some(summary) ==> is_summary(
            finest_units,
            units,
            terminal,
            links@,
            network@,
            summary,
        ),
{
    match checked_strahler_orders(terminal, links) {
        None => None,
        Some(orders) => {
            let order_counts = orders.order_counts();
            let max_strahler_order = order_counts.len();
            let first_order_units = if order_counts.len() > 0 {
                order_counts[0]
            } else {
                1
            };
            Some(
                Summary {
                    finest_units,
                    units,
                    order_counts,
                    max_strahler_order,
                    first_order_units,
                    reaches: network.len(),
                    mainstem: network.count_of(StemRole::Mainstem),
                    tributary: network.count_of(StemRole::Tributary),
                    distributary: network.count_of(StemRole::Distributary),
                },
            )
        },
    }
}

// ---- what a query asks for ----

/// Where a position is given, a plan has it: the latitude as latitude, the longitude
/// as longitude, whatever else is asked for. There is no plan without both.
pub proof fn law_position_is_kept(
    lat: Option<Scalar>,
    lon: Option<Scalar>,
    strategy: Option<Seq<char>>,
    radius: Option<Scalar>,
)
    ensures
        planned(lat, lon, strategy, radius) is Some <==> lat is Some && lon is Some,
        planned(lat, lon, strategy, radius) is Some ==> {
            &&& Some(planned(lat, lon, strategy, radius)->0.lat) == lat
            &&& Some(planned(lat, lon, strategy, radius)->0.lon) == lon
        },
{
}

/// The radius has no part in a position or a strategy, and the strategy none in a
/// position or the radii.
pub proof fn law_wishes_are_independent(
    lat: Scalar,
    lon: Scalar,
    strategy: Option<Seq<char>>,
    other_strategy: Option<Seq<char>>,
    radius: Option<Scalar>,
    other_radius: Option<Scalar>,
)
    ensures
        ({
            let this = planned(Some(lat), Some(lon), strategy, radius)->0;
            let other = planned(Some(lat), Some(lon), other_strategy, other_radius)->0;
            &&& this.lat == lat && this.lon == lon
            &&& other.lat == lat && other.lon == lon
            &&& strategy == other_strategy ==> this.distance_first == other.distance_first
            &&& radius == other_radius ==> this.ladder == other.ladder
            &&& this.distance_first <==> strategy is Some && strategy->0 == "distance"@
            &&& radius is Some ==> this.ladder == seq![radius->0]
            &&& radius is None ==> this.ladder.len() > 1
        }),
{
}

/// The default radii are numbers, and each is wider than the one before.
pub proof fn law_default_radii_widen(i: int, j: int)
    requires
        0 <= i < j < default_ladder().len(),
    ensures
        default_ladder().len() == 5,
        ladder_of(None) == default_ladder(),
        default_ladder()[i].less(default_ladder()[j]),
{
    law_unsigned_order(default_ladder()[i], default_ladder()[j]);
}

/// `number` reads `n(text)` from a text.
pub open spec fn reads<N>(number: N, n: spec_fn(Seq<char>) -> Option<Scalar>) -> bool where
    N: Fn(&String) -> Option<Scalar>,
 {
    forall|text: String, value: Option<Scalar>| #[trigger]
        call_ensures(number, (&text,), value) ==> value == n(text@)
}

/// The number that the entry of `key` is read as, if there is such an entry and it
/// is a number.
pub open spec fn number_at(
    n: spec_fn(Seq<char>) -> Option<Scalar>,
    query: Map<Seq<char>, Seq<char>>,
    key: Seq<char>,
) -> Option<Scalar> {
    if query.contains_key(key) {
        n(query[key])
    } else {
        None
    }
}

/// The plan of a query has as latitude what is read from its entry `lat`, as
/// longitude what is read from `lon`, and as only radius what is read from `radius`,
/// where something is. The nearest candidate counts first exactly where the entry
/// `strategy` says `distance`.
pub proof fn law_plan_is_read_from_its_entries<N>(
    number: N,
    n: spec_fn(Seq<char>) -> Option<Scalar>,
    query: Map<Seq<char>, Seq<char>>,
    lat: Option<Scalar>,
    lon: Option<Scalar>,
    radius: Option<Scalar>,
    result: Option<PlanRecord>,
) where N: Fn(&String) -> Option<Scalar>
    requires
        reads(number, n),
        is_plan_of(number, query, lat, lon, radius, result),
    ensures
        result is Some <==> number_at(n, query, "lat"@) is Some && number_at(n, query, "lon"@)
            is Some,
        result is Some ==> {
            let plan = result->0;
            &&& Some(plan.lat) == number_at(n, query, "lat"@)
            &&& Some(plan.lon) == number_at(n, query, "lon"@)
            &&& plan.distance_first <==> query.contains_key("strategy"@) && query["strategy"@]
                == "distance"@
            &&& match number_at(n, query, "radius"@) {
                Some(metres) => plan.ladder == seq![metres],
                None => plan.ladder == default_ladder(),
            }
        },
{
}

// ---- how a delineation proceeds ----

/// `events`, followed by `more` successes.
pub open spec fn and_successes(events: Seq<Event>, more: nat) -> Seq<Event> {
    events + Seq::new(more, |i: int| Event::Succeeded)
}

proof fn lemma_one_more_success(ladder: Seq<Scalar>, events: Seq<Event>, more: nat)
    ensures
        reached(ladder, and_successes(events, more + 1)) == after_success(
            reached(ladder, and_successes(events, more)),
        ),
{
    let longer = and_successes(events, more + 1);
    assert(longer.drop_last() =~= and_successes(events, more));
    assert(longer.last() == Event::Succeeded);
}

/// Once a radius was accepted and led to an outlet, the engine traverses upstream,
/// produces the units, refines the terminal one, dissolves the watershed, collects
/// the reaches and measures the perimeter, in this order; then there is a result.
pub proof fn law_tasks_are_done_in_order(ladder: Seq<Scalar>, events: Seq<Event>, rung: usize)
    requires
        rung < ladder.len(),
        ladder.len() <= usize::MAX,
        tried(events, rung as nat),
    ensures
        reached(ladder, events) == (Stage::Configure { rung }),
        reached(ladder, and_successes(events, 1)) == (Stage::Resolve { rung }),
        reached(ladder, and_successes(events, 2)) == (Stage::Run {
            rung,
            task: Task::TraverseUpstream,
        }),
        reached(ladder, and_successes(events, 3)) == (Stage::Run {
            rung,
            task: Task::ProduceUnits,
        }),
        reached(ladder, and_successes(events, 4)) == (Stage::Run {
            rung,
            task: Task::RefineTerminal,
        }),
        reached(ladder, and_successes(events, 5)) == (Stage::Run {
            rung,
            task: Task::DissolveWatershed,
        }),
        reached(ladder, and_successes(events, 6)) == (Stage::Run {
            rung,
            task: Task::CollectReaches,
        }),
        reached(ladder, and_successes(events, 7)) == (Stage::Run {
            rung,
            task: Task::MeasurePerimeter,
        }),
        reached(ladder, and_successes(events, 8)) == (Stage::Done { rung }),
{
    law_search_walks_up(ladder, events, rung);
    assert(and_successes(events, 0) =~= events);
    lemma_one_more_success(ladder, events, 0);
    lemma_one_more_success(ladder, events, 1);
    lemma_one_more_success(ladder, events, 2);
    lemma_one_more_success(ladder, events, 3);
    lemma_one_more_success(ladder, events, 4);
    lemma_one_more_success(ladder, events, 5);
    lemma_one_more_success(ladder, events, 6);
    lemma_one_more_success(ladder, events, 7);
}

/// A failure is answered with what the engine says of it: as a failed delineation
/// while the level is selected or a task is done, as an invalid request where a
/// radius is not accepted. A search that fails within a radius is repeated with the
/// next one, and refused with the last radius where there is no next.
pub proof fn law_failures_are_answered(ladder: Seq<Scalar>, events: Seq<Event>, message: String)
    requires
        ladder.len() > 0,
        ladder.len() <= usize::MAX,
    ensures
        match reached(ladder, events) {
            Stage::SelectLevel => reached(ladder, events.push(Event::Failed(message)))
                == Stage::Refused(Refusal::Failed { message }),
            Stage::Configure { .. } => reached(ladder, events.push(Event::Failed(message)))
                == Stage::Refused(Refusal::Invalid { message }),
            Stage::Resolve { rung } => if rung + 1 < ladder.len() {
                reached(ladder, events.push(Event::Failed(message))) == (Stage::Configure {
                    rung: (rung + 1) as usize,
                })
            } else {
                reached(ladder, events.push(Event::Failed(message))) == Stage::Refused(
                    Refusal::RadiusExhausted { message, metres: ladder.last() },
                )
            },
            Stage::Run { .. } => reached(ladder, events.push(Event::Failed(message)))
                == Stage::Refused(Refusal::Failed { message }),
            _ => true,
        },
        reached(ladder, Seq::empty()) == Stage::SelectLevel,
{
    law_rungs_are_on_the_ladder(ladder, events);
    assert(events.push(Event::Failed(message)).drop_last() =~= events);
}

/// A summary passes on the counts it is given and counts the reaches of each role.
/// With the orders of the basin's units, it counts the units of every order, reports
/// the order of the outlet as the highest, and reports the number of units of order
/// one.
pub proof fn law_summary_counts(
    finest_units: usize,
    units: usize,
    terminal: UnitId,
    links: Seq<UnitLink>,
    network: NetworkRecord,
    summary: Summary,
)
    requires
        is_acyclic(links, outlet_of(terminal@, links)),
        is_summary(finest_units, units, terminal, links, network, summary),
    ensures
        summary.finest_units == finest_units,
        summary.units == units,
        summary.reaches == network.reaches.len(),
        summary.mainstem == network.reaches.filter(
            |reach: ReachRecord| reach.stem_role == Some(StemRole::Mainstem),
        ).len(),
        summary.tributary == network.reaches.filter(
            |reach: ReachRecord| reach.stem_role == Some(StemRole::Tributary),
        ).len(),
        summary.distributary == network.reaches.filter(
            |reach: ReachRecord| reach.stem_role == Some(StemRole::Distributary),
        ).len(),
        exists|orders: Map<i64, u32>|
            {
                &&& #[trigger] is_ordering(links, outlet_of(terminal@, links), orders)
                &&& summary.max_strahler_order == orders[outlet_of(terminal@, links)]
                &&& summary.order_counts@.len() == orders[outlet_of(terminal@, links)]
                &&& summary.first_order_units == orders.dom().filter(
                    |u: i64| orders[u] == 1,
                ).len()
                &&& forall|i: int|
                    0 <= i < summary.order_counts@.len() ==> #[trigger] summary.order_counts@[i]
                        == orders.dom().filter(|u: i64| orders[u] == i + 1).len()
            },
{
    let outlet = outlet_of(terminal@, links);
    let orders = choose|orders: Map<i64, u32>| #[trigger]
        is_ordering(links, outlet, orders) && is_tally(orders, summary.order_counts@);
    let counts = summary.order_counts@;
    law_tally_counts_every_unit(links, outlet, orders, counts);
    assert(counts[0] == orders.dom().filter(|u: i64| orders[u] == 0 + 1).len());
    assert(orders.dom().filter(|u: i64| orders[u] == 0 + 1) =~= orders.dom().filter(
        |u: i64| orders[u] == 1,
    ));
}

} // verus!
