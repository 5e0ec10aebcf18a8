//! What a finished delineation is reported with.
use vstd::prelude::*;

use crate::delineate::fits;
use crate::delineate::is_escalated;
use crate::delineate::is_summary;
use crate::delineate::summarise;
use crate::delineate::Delineation;
use crate::delineate::Stage;
use crate::delineate::Summary;
use crate::fabric::StemRole;
use crate::fabric::UnitId;
use crate::geojson::are_rounded;
use crate::geojson::are_shown_reaches;
use crate::geojson::display_tolerance;
use crate::geojson::display_watershed;
use crate::geojson::law_outer_ring_comes_first;
use crate::geojson::law_rounding_keeps_rings;
use crate::geojson::multipolygon_json;
use crate::geojson::reach_features;
use crate::geojson::rings_of_polygons;
use crate::geojson::rounds_to;
use crate::geojson::with_rounded;
use crate::geojson::ReachFeature;
use crate::geometry::lines_view;
use crate::geometry::Coord;
use crate::geometry::MultiPolygon;
use crate::geometry::Rings;
use crate::measure::is_sum;
use crate::measure::ChannelLengthKm;
use crate::nearest::greatest;
use crate::network::carrying;
use crate::network::lengths_of;
use crate::network::NetworkRecord;
use crate::network::ReachRecord;
use crate::network::UpstreamReaches;
use crate::outlet::are_point_distances;
use crate::outlet::basin_length_km;
use crate::outlet::boundary_of;
use crate::outlet::law_basin_reaches_its_farthest_vertex;
use crate::scalar::Scalar;
use crate::strahler::is_acyclic;
use crate::strahler::outlet_of;
use crate::strahler::UnitLink;
use crate::truncate::measures_points;

verus! {

/// What the engine found.
pub struct Found {
    /// The number of units upstream of the outlet.
    pub finest_units: usize,
    /// The number of units of the watershed.
    pub units: usize,
    /// The terminal unit.
    pub terminal: UnitId,
    /// The units of the watershed, each with the one it drains into.
    pub links: Vec<UnitLink>,
    /// Where the outlet was found.
    pub outlet: Coord,
    /// The dissolved watershed.
    pub watershed: MultiPolygon,
    pub area_km2: Scalar,
    pub perimeter_km: Scalar,
    /// The channel network.
    pub network: UpstreamReaches,
}

/// How numbers are computed.
pub struct Kernels<D, A, S, P, C, R, F> {
    /// The geodesic distance of two positions, in kilometres.
    pub kilometres: D,
    /// The sum of two lengths.
    pub plus: A,
    /// The distance of a position from a segment, squared.
    pub to_segment: S,
    /// The distance of two positions, squared.
    pub to_point: P,
    /// What of paths lies inside shapes.
    pub clip: C,
    /// A coordinate as it is shown.
    pub round: R,
    /// A watershed simplified to a tolerance.
    pub simplify: F,
}

/// What a finished delineation is reported with.
pub struct Report {
    pub lat: Scalar,
    pub lon: Scalar,
    pub radius_used_m: Scalar,
    pub escalated: bool,
    pub terminal_unit_id: UnitId,
    pub resolved: Coord,
    pub area_km2: Scalar,
    pub perimeter_km: Scalar,
    pub basin_length_km: Scalar,
    pub channel_length_km: Scalar,
    pub mainstem_length_km: Scalar,
    pub summary: Summary,
    pub simplified_deg: Scalar,
    pub watershed: Vec<Vec<Vec<Coord>>>,
    pub reaches: Vec<ReachFeature>,
}

/// The kernels can be called on anything.
pub open spec fn can_compute<D, A, S, P, C, R, F>(kernels: Kernels<D, A, S, P, C, R, F>) -> bool where
    D: Fn(Coord, Coord) -> Scalar,
    A: Fn(ChannelLengthKm, ChannelLengthKm) -> ChannelLengthKm,
    S: Fn(Coord, Coord, Coord) -> Scalar,
    P: Fn(Coord, Coord) -> Scalar,
    C: Fn(&Vec<Vec<Vec<Coord>>>, &Vec<Vec<Coord>>) -> Vec<Vec<Coord>>,
    R: Fn(Scalar) -> Scalar,
    F: Fn(&MultiPolygon, Scalar) -> MultiPolygon,
 {
    &&& forall|a: Coord, b: Coord| call_requires(kernels.kilometres, (a, b))
    &&& forall|a: ChannelLengthKm, b: ChannelLengthKm| call_requires(kernels.plus, (a, b))
    &&& forall|p: Coord, a: Coord, b: Coord| call_requires(kernels.to_segment, (p, a, b))
    &&& forall|a: Coord, b: Coord| call_requires(kernels.to_point, (a, b))
    &&& forall|s: &Vec<Vec<Vec<Coord>>>, p: &Vec<Vec<Coord>>| call_requires(kernels.clip, (s, p))
    &&& forall|s: Scalar| call_requires(kernels.round, (s,))
    &&& forall|w: &MultiPolygon, t: Scalar| call_requires(kernels.simplify, (w, t))
}

/// `km` is the longest distance from the outlet to the watershed's boundary.
pub open spec fn is_basin_length<D>(
    kilometres: D,
    outlet: Coord,
    watershed: Seq<Rings>,
    km: Scalar,
) -> bool where D: Fn(Coord, Coord) -> Scalar {
    exists|distances: Seq<Scalar>| #[trigger]
        are_point_distances(kilometres, outlet, boundary_of(watershed), distances) && km
            == greatest(distances)
}

/// `channel` is the length of the whole network, and `mainstem` that of its
/// mainstem.
pub open spec fn are_network_lengths<A>(
    plus: A,
    network: NetworkRecord,
    channel: Scalar,
    mainstem: Scalar,
) -> bool where A: Fn(ChannelLengthKm, ChannelLengthKm) -> ChannelLengthKm {
    &&& is_sum(plus, lengths_of(network.reaches), ChannelLengthKm { km: channel })
    &&& is_sum(
        plus,
        lengths_of(carrying(network.reaches, StemRole::Mainstem)),
        ChannelLengthKm { km: mainstem },
    )
}

/// `shown` are the coordinates of `watershed`, rounded.
pub open spec fn is_shown_watershed<R>(
    round: R,
    watershed: Seq<Rings>,
    shown: Seq<Vec<Vec<Coord>>>,
) -> bool where R: Fn(Scalar) -> Scalar {
    &&& shown.len() == watershed.len()
    &&& forall|i: int|
        0 <= i < shown.len() ==> are_rounded(
            round,
            rings_of_polygons(watershed)[i],
            lines_view((#[trigger] shown[i])@),
        )
}

/// Reports a finished delineation, whose outlet was found at `rung`. There is no
/// report where the units drain in a circle.
pub fn report<D, A, S, P, C, R, F>(
    delineation: &Delineation,
    rung: usize,
    found: &Found,
    kernels: &Kernels<D, A, S, P, C, R, F>,
) -> (r: Option<Report>) where
    D: Fn(Coord, Coord) -> Scalar,
    A: Fn(ChannelLengthKm, ChannelLengthKm) -> ChannelLengthKm,
    S: Fn(Coord, Coord, Coord) -> Scalar,
    P: Fn(Coord, Coord) -> Scalar,
    C: Fn(&Vec<Vec<Vec<Coord>>>, &Vec<Vec<Coord>>) -> Vec<Vec<Coord>>,
    R: Fn(Scalar) -> Scalar,
    F: Fn(&MultiPolygon, Scalar) -> MultiPolygon,

    requires
        delineation.spec_stage() == (Stage::Done { rung }),
        can_compute(*kernels),
    ensures
        r is Some <==> is_acyclic(found.links@, outlet_of(found.terminal@, found.links@)),
        r matches Some(report) ==> {
            let plan = delineation.spec_plan();
            &&& report.lat == plan.lat
            &&& report.lon == plan.lon
            &&& report.radius_used_m == plan.ladder[rung as int]
            &&& report.escalated == is_escalated(plan.ladder, rung as int)
            &&& report.terminal_unit_id == found.terminal
            &&& report.resolved == found.outlet
            &&& report.area_km2 == found.area_km2
            &&& report.perimeter_km == found.perimeter_km
            &&& is_basin_length(
                kernels.kilometres,
                found.outlet,
                found.watershed@,
                report.basin_length_km,
            )
            &&& are_network_lengths(
                kernels.plus,
                found.network@,
                report.channel_length_km,
                report.mainstem_length_km,
            )
            &&& is_summary(
                found.finest_units,
                found.units,
                found.terminal,
                found.links@,
                found.network@,
                report.summary,
            )
            &&& report.simplified_deg == (Scalar { bits: 0 })
            &&& is_shown_watershed(kernels.round, found.watershed@, report.watershed@)
            &&& are_shown_reaches(
                (kernels.to_segment, kernels.to_point, kernels.clip, kernels.round),
                found.network@.reaches,
                found.watershed@,
                found.terminal,
                found.outlet,
                report.reaches@,
            )
        },
{
    let summary = match summarise(
        found.finest_units,
        found.units,
        found.terminal,
        &found.links,
        &found.network,
    ) {
        Some(summary) => summary,
        None => {
            return None;
        },
    };
    let basin = basin_length_km(found.outlet, &found.watershed, &kernels.kilometres);
    let channel = found.network.total_length(&kernels.plus);
    let mainstem = found.network.total_length_of(StemRole::Mainstem, &kernels.plus);
    let display = display_watershed(found.area_km2, &found.watershed, &kernels.simplify);
    let watershed = multipolygon_json(&display, &kernels.round);
    let reaches = reach_features(
        &found.network,
        found.terminal,
        found.outlet,
        &display,
        &kernels.to_segment,
        &kernels.to_point,
        &kernels.clip,
        &kernels.round,
    );
    assert(ChannelLengthKm { km: channel.km } == channel);
    assert(ChannelLengthKm { km: mainstem.km } == mainstem);
    let plan = delineation.plan();
    let stage = delineation.stage();
    assert(fits(delineation.spec_plan().ladder, *stage));
    Some(
        Report {
            lat: plan.lat(),
            lon: plan.lon(),
            radius_used_m: delineation.radius(rung),
            escalated: delineation.escalated(rung),
            terminal_unit_id: found.terminal,
            resolved: found.outlet,
            area_km2: found.area_km2,
            perimeter_km: found.perimeter_km,
            basin_length_km: basin,
            channel_length_km: channel.as_f64(),
            mainstem_length_km: mainstem.as_f64(),
            summary,
            simplified_deg: display_tolerance(found.area_km2),
            watershed,
            reaches,
        },
    )
}

// ---- what a report says ----

/// No vertex of the watershed's outer rings is farther from the outlet than the basin
/// is reported to be long, and the length is the distance of one of them, or zero.
pub proof fn law_reported_length_is_to_the_farthest_vertex<D>(
    kilometres: D,
    f: spec_fn(Coord, Coord) -> Scalar,
    outlet: Coord,
    watershed: Seq<Rings>,
    km: Scalar,
) where D: Fn(Coord, Coord) -> Scalar
    requires
        measures_points(kilometres, f),
        is_basin_length(kilometres, outlet, watershed, km),
    ensures
        forall|p: int, k: int|
            0 <= p < watershed.len() && 0 <= k < watershed[p].exterior.len() && f(
                outlet,
                #[trigger] watershed[p].exterior[k],
            ).is_number() ==> f(outlet, watershed[p].exterior[k]).at_most(km),
        km == (Scalar { bits: 0 }) || exists|p: int, k: int|
            0 <= p < watershed.len() && 0 <= k < watershed[p].exterior.len() && f(
                outlet,
                #[trigger] watershed[p].exterior[k],
            ) == km,
{
    let distances = choose|distances: Seq<Scalar>| #[trigger]
        are_point_distances(kilometres, outlet, boundary_of(watershed), distances) && km
            == greatest(distances);
    law_basin_reaches_its_farthest_vertex(kilometres, f, outlet, watershed, distances, km);
}

/// The reported lengths are those of all reaches, and of the reaches that declare the
/// mainstem role, summed up in order.
pub proof fn law_reported_lengths_are_sums<A>(
    plus: A,
    network: NetworkRecord,
    channel: Scalar,
    mainstem: Scalar,
) where A: Fn(ChannelLengthKm, ChannelLengthKm) -> ChannelLengthKm
    requires
        are_network_lengths(plus, network, channel, mainstem),
    ensures
        is_sum(
            plus,
            network.reaches.map_values(|reach: ReachRecord| reach.length),
            ChannelLengthKm { km: channel },
        ),
        is_sum(
            plus,
            network.reaches.filter(
                |reach: ReachRecord| reach.stem_role == Some(StemRole::Mainstem),
            ).map_values(|reach: ReachRecord| reach.length),
            ChannelLengthKm { km: mainstem },
        ),
{
    let main = network.reaches.filter(
        |reach: ReachRecord| reach.stem_role == Some(StemRole::Mainstem),
    );
    assert(lengths_of(network.reaches) =~= network.reaches.map_values(
        |reach: ReachRecord| reach.length,
    ));
    assert(lengths_of(main) =~= main.map_values(|reach: ReachRecord| reach.length));
}

/// The watershed is shown polygon by polygon: the outer ring first, then the holes,
/// with every position in its place, rounded.
pub proof fn law_watershed_is_shown_whole<R>(
    round: R,
    h: spec_fn(Scalar) -> Scalar,
    watershed: Seq<Rings>,
    shown: Seq<Vec<Vec<Coord>>>,
    p: int,
    k: int,
) where R: Fn(Scalar) -> Scalar
    requires
        rounds_to(round, h),
        is_shown_watershed(round, watershed, shown),
        0 <= p < watershed.len(),
    ensures
        shown.len() == watershed.len(),
        shown[p]@.len() == watershed[p].interiors.len() + 1,
        shown[p]@[0]@ == with_rounded(watershed[p].exterior, h),
        0 <= k < watershed[p].interiors.len() ==> shown[p]@[k + 1]@ == with_rounded(
            watershed[p].interiors[k],
            h,
        ),
{
    let rings = rings_of_polygons(watershed)[p];
    let result = lines_view(shown[p]@);
    law_outer_ring_comes_first(watershed, p, k);
    law_rounding_keeps_rings(round, h, rings, result);
    assert(result[0] == shown[p]@[0]@);
    if 0 <= k < watershed[p].interiors.len() {
        assert(result[k + 1] == shown[p]@[k + 1]@);
    }
}

} // verus!
