//! The channel network of a watershed.
use std::collections::HashSet;
use vstd::prelude::*;

use crate::fabric::SnapId;
use crate::fabric::StemRole;
use crate::fabric::UnitId;
use crate::geometry::lemma_filter_all;
use crate::geometry::lemma_filter_empty;
use crate::geometry::lemma_filter_push;
use crate::geometry::Geometry;
use crate::geometry::Shape;
use crate::measure::are_partial_sums;
use crate::measure::geodesic_channel_length;
use crate::measure::is_channel_length;
use crate::measure::is_sum;
use crate::measure::no_length;
use crate::measure::sum_lengths;
use crate::measure::ChannelLengthError;
use crate::measure::ChannelLengthKm;
use crate::scalar::Scalar;
use crate::staged::PreMergeDrainageUnits;
use crate::staged::SelectedLevel;
use crate::staged::UnitsRecord;

verus! {

broadcast use vstd::std_specs::hash::group_hash_axioms;

/// A reach centreline inside a watershed.
///
/// The geometry is the one that the fabric declares, so that the length is a
/// property of the fabric's linework.
#[derive(Debug, PartialEq)]
pub struct DrainageReach {
    snap_id: SnapId,
    unit_id: UnitId,
    stem_role: Option<StemRole>,
    weight: hfx::Weight,
    length: ChannelLengthKm,
    geometry: Geometry,
    geometry_wkb: Vec<u8>,
}

/// What a [`DrainageReach`] holds.
pub struct ReachRecord {
    pub snap_id: SnapId,
    pub unit_id: UnitId,
    pub stem_role: Option<StemRole>,
    pub weight: hfx::Weight,
    pub length: ChannelLengthKm,
    pub geometry: Shape,
    pub geometry_wkb: Seq<u8>,
}

impl View for DrainageReach {
    type V = ReachRecord;

    closed spec fn view(&self) -> ReachRecord {
        ReachRecord {
            snap_id: self.snap_id,
            unit_id: self.unit_id,
            stem_role: self.stem_role,
            weight: self.weight,
            length: self.length,
            geometry: self.geometry@,
            geometry_wkb: self.geometry_wkb@,
        }
    }
}

impl Clone for DrainageReach {
    fn clone(&self) -> (r: Self)
        ensures
            r@ == self@,
    {
        let geometry_wkb = self.geometry_wkb.clone();
        assert(geometry_wkb@ =~= self.geometry_wkb@);
        DrainageReach {
            snap_id: self.snap_id,
            unit_id: self.unit_id,
            stem_role: self.stem_role,
            weight: self.weight,
            length: self.length,
            geometry: self.geometry.clone(),
            geometry_wkb,
        }
    }
}

impl DrainageReach {
    pub fn new(
        snap_id: SnapId,
        unit_id: UnitId,
        stem_role: Option<StemRole>,
        weight: hfx::Weight,
        length: ChannelLengthKm,
        geometry: Geometry,
        geometry_wkb: Vec<u8>,
    ) -> (r: Self)
        ensures
            r@ == (ReachRecord {
                snap_id,
                unit_id,
                stem_role,
                weight,
                length,
                geometry: geometry@,
                geometry_wkb: geometry_wkb@,
            }),
    {
        DrainageReach { snap_id, unit_id, stem_role, weight, length, geometry, geometry_wkb }
    }

    /// The identifier of the reach.
    pub fn snap_id(&self) -> (r: SnapId)
        ensures
            r == self@.snap_id,
    {
        self.snap_id
    }

    /// The unit to which the reach belongs.
    pub fn unit_id(&self) -> (r: UnitId)
        ensures
            r == self@.unit_id,
    {
        self.unit_id
    }

    /// The stem role, where the fabric declares one.
    pub fn stem_role(&self) -> (r: Option<StemRole>)
        ensures
            r == self@.stem_role,
    {
        self.stem_role
    }

    /// The fabric's hydrologic weight for the reach.
    pub fn weight(&self) -> (r: hfx::Weight)
        ensures
            r == self@.weight,
    {
        self.weight
    }

    /// The geodesic length of the reach.
    pub fn length(&self) -> (r: ChannelLengthKm)
        ensures
            r == self@.length,
    {
        self.length
    }

    /// The decoded centreline.
    pub fn geometry(&self) -> (r: &Geometry)
        ensures
            r@ == self@.geometry,
    {
        &self.geometry
    }

    /// The centreline as the fabric stores it: the bytes that were read, not a
    /// new encoding.
    pub fn geometry_wkb(&self) -> (r: &[u8])
        ensures
            r@ == self@.geometry_wkb,
    {
        self.geometry_wkb.as_slice()
    }
}

/// The reaches of a watershed: exactly those of its drainage units.
#[derive(Debug, PartialEq)]
pub struct UpstreamReaches {
    terminal: UnitId,
    selected_level: SelectedLevel,
    reaches: Vec<DrainageReach>,
}

/// What [`UpstreamReaches`] holds.
pub struct NetworkRecord {
    pub terminal: UnitId,
    pub level: SelectedLevel,
    pub reaches: Seq<ReachRecord>,
}

/// What a list of reaches holds.
pub open spec fn reaches_view(reaches: Seq<DrainageReach>) -> Seq<ReachRecord> {
    Seq::new(reaches.len(), |i: int| reaches[i]@)
}

/// The reaches that carry `role`.
pub open spec fn carrying(reaches: Seq<ReachRecord>, role: StemRole) -> Seq<ReachRecord> {
    reaches.filter(|reach: ReachRecord| reach.stem_role == Some(role))
}

/// The lengths of reaches.
pub open spec fn lengths_of(reaches: Seq<ReachRecord>) -> Seq<ChannelLengthKm> {
    reaches.map_values(|reach: ReachRecord| reach.length)
}

impl View for UpstreamReaches {
    type V = NetworkRecord;

    closed spec fn view(&self) -> NetworkRecord {
        NetworkRecord {
            terminal: self.terminal,
            level: self.selected_level,
            reaches: reaches_view(self.reaches@),
        }
    }
}

impl Clone for UpstreamReaches {
    fn clone(&self) -> (r: Self)
        ensures
            r@ == self@,
    {
        let mut reaches: Vec<DrainageReach> = Vec::new();
        for i in 0..self.reaches.len()
            invariant
                reaches@.len() == i,
                reaches_view(reaches@) =~= reaches_view(self.reaches@).take(i as int),
        {
            reaches.push(self.reaches[i].clone());
        }
        assert(reaches_view(reaches@) =~= reaches_view(self.reaches@));
        UpstreamReaches {
            terminal: self.terminal,
            selected_level: self.selected_level,
            reaches,
        }
    }
}

impl UpstreamReaches {
    pub fn new(terminal: UnitId, selected_level: SelectedLevel, reaches: Vec<DrainageReach>) -> (r:
        Self)
        ensures
            r@ == (NetworkRecord {
                terminal,
                level: selected_level,
                reaches: reaches_view(reaches@),
            }),
    {
        UpstreamReaches { terminal, selected_level, reaches }
    }

    /// The terminal unit of the watershed.
    pub fn terminal(&self) -> (r: UnitId)
        ensures
            r == self@.terminal,
    {
        self.terminal
    }

    /// The level at which the reaches were read.
    pub fn selected_level(&self) -> (r: SelectedLevel)
        ensures
            r == self@.level,
    {
        self.selected_level
    }

    /// The reaches.
    pub fn reaches(&self) -> (r: &[DrainageReach])
        ensures
            reaches_view(r@) == self@.reaches,
    {
        self.reaches.as_slice()
    }

    /// The number of reaches.
    pub fn len(&self) -> (r: usize)
        ensures
            r == self@.reaches.len(),
    {
        self.reaches.len()
    }

    /// The watershed carries no reach.
    pub fn is_empty(&self) -> (r: bool)
        ensures
            r == (self@.reaches.len() == 0),
    {
        self.reaches.len() == 0
    }

    /// The lengths of all reaches, in their order.
    pub fn lengths(&self) -> (r: Vec<ChannelLengthKm>)
        ensures
            r@ == lengths_of(self@.reaches),
    {
        let mut lengths: Vec<ChannelLengthKm> = Vec::new();
        for i in 0..self.reaches.len()
            invariant
                lengths@ =~= lengths_of(self@.reaches).take(i as int),
        {
            lengths.push(self.reaches[i].length());
        }
        lengths
    }

    /// The lengths of the reaches that carry `role`, in their order.
    pub fn lengths_of_role(&self, role: StemRole) -> (r: Vec<ChannelLengthKm>)
        ensures
            r@ == lengths_of(carrying(self@.reaches, role)),
    {
        let ghost all = self@.reaches;
        let ghost p = |reach: ReachRecord| reach.stem_role == Some(role);
        let mut lengths: Vec<ChannelLengthKm> = Vec::new();
        proof {
            lemma_filter_empty(p);
            assert(all.take(0) =~= Seq::<ReachRecord>::empty());
        }
        for i in 0..self.reaches.len()
            invariant
                all == self@.reaches,
                p == (|reach: ReachRecord| reach.stem_role == Some(role)),
                lengths@ =~= lengths_of(all.take(i as int).filter(p)),
        {
            proof {
                assert(all.take(i + 1) =~= all.take(i as int).push(all[i as int]));
                lemma_filter_push(all.take(i as int), all[i as int], p);
            }
            match self.reaches[i].stem_role() {
                Some(own) => {
                    if own == role {
                        lengths.push(self.reaches[i].length());
                    }
                },
                None => {},
            }
        }
        assert(all.take(all.len() as int) =~= all);
        lengths
    }

    /// The length of all reaches together: the numerator of drainage density.
    ///
    /// `plus` adds two lengths. The sum is taken over the lengths that the
    /// reaches carry, so that it rests on the measure each was measured with.
    pub fn total_length<A>(&self, plus: &A) -> (r: ChannelLengthKm) where
        A: Fn(ChannelLengthKm, ChannelLengthKm) -> ChannelLengthKm,

        requires
            forall|a: ChannelLengthKm, b: ChannelLengthKm| call_requires(plus, (a, b)),
        ensures
            is_sum(*plus, lengths_of(self@.reaches), r),
    {
        let lengths = self.lengths();
        sum_lengths(&lengths, plus)
    }

    /// The length of the reaches that carry `role` together.
    pub fn total_length_of<A>(&self, role: StemRole, plus: &A) -> (r: ChannelLengthKm) where
        A: Fn(ChannelLengthKm, ChannelLengthKm) -> ChannelLengthKm,

        requires
            forall|a: ChannelLengthKm, b: ChannelLengthKm| call_requires(plus, (a, b)),
        ensures
            is_sum(*plus, lengths_of(carrying(self@.reaches, role)), r),
    {
        let lengths = self.lengths_of_role(role);
        sum_lengths(&lengths, plus)
    }

    /// The number of reaches that carry `role`.
    pub fn count_of(&self, role: StemRole) -> (r: usize)
        ensures
            r == carrying(self@.reaches, role).len(),
    {
        let lengths = self.lengths_of_role(role);
        assert(lengths@.len() == carrying(self@.reaches, role).len());
        lengths.len()
    }
}

/// A snap feature of the dataset, as a sweep over the watershed's bounding
/// rectangle finds it.
#[derive(Debug)]
pub struct SnapFeature {
    pub snap_id: SnapId,
    pub unit_id: UnitId,
    pub stem_role: Option<StemRole>,
    pub weight: hfx::Weight,
    pub geometry: Geometry,
    pub geometry_wkb: Vec<u8>,
}

/// Why there is no channel network.
#[derive(Debug)]
pub enum ReachError {
    /// The dataset declares no snap features for the level.
    NoSnapAuxForLevel {
        /// The level.
        level: SelectedLevel,
    },
    /// A reach has no length.
    ReachLength {
        /// The reach.
        snap_id: SnapId,
        /// Why it has none.
        source: ChannelLengthError,
    },
}

/// The features that belong to one of the units.
pub open spec fn retained(units: UnitsRecord, features: Seq<SnapFeature>) -> Seq<SnapFeature> {
    features.filter(|feature: SnapFeature| units.has_member(feature.unit_id))
}

/// `reach` is `feature` with a measured length.
pub open spec fn is_reach_of<M, K>(
    metres: M,
    to_km: K,
    feature: SnapFeature,
    reach: ReachRecord,
) -> bool where M: Fn(&Geometry) -> Scalar, K: Fn(Scalar) -> Scalar {
    &&& reach.snap_id == feature.snap_id
    &&& reach.unit_id == feature.unit_id
    &&& reach.stem_role == feature.stem_role
    &&& reach.weight == feature.weight
    &&& reach.geometry == feature.geometry@
    &&& reach.geometry_wkb == feature.geometry_wkb@
    &&& is_channel_length(metres, to_km, &feature.geometry, Ok(reach.length))
}

/// `reaches` are `features`, one for one, with measured lengths.
pub open spec fn are_reaches_of<M, K>(
    metres: M,
    to_km: K,
    features: Seq<SnapFeature>,
    reaches: Seq<ReachRecord>,
) -> bool where M: Fn(&Geometry) -> Scalar, K: Fn(Scalar) -> Scalar {
    &&& reaches.len() == features.len()
    &&& forall|i: int|
        0 <= i < reaches.len() ==> is_reach_of(metres, to_km, features[i], #[trigger] reaches[i])
}

/// The feature `snap_id` has no length, for the reason `source`, and those before
/// it have one.
pub open spec fn is_first_failure<M, K>(
    metres: M,
    to_km: K,
    features: Seq<SnapFeature>,
    snap_id: SnapId,
    source: ChannelLengthError,
) -> bool where M: Fn(&Geometry) -> Scalar, K: Fn(Scalar) -> Scalar {
    exists|i: int, before: Seq<ReachRecord>|
        {
            &&& 0 <= i < features.len()
            &&& #[trigger] are_reaches_of(metres, to_km, features.take(i), before)
            &&& features[i].snap_id == snap_id
            &&& is_channel_length(metres, to_km, &features[i].geometry, Err(source))
        }
}

/// What is filtered out of a start of a sequence starts what is filtered out of
/// all of it.
proof fn lemma_filter_prefix<T>(s: Seq<T>, i: int, p: spec_fn(T) -> bool)
    requires
        0 <= i < s.len(),
        p(s[i]),
    ensures
        s.take(i).filter(p).len() < s.filter(p).len(),
        s.filter(p).take(s.take(i).filter(p).len() as int) == s.take(i).filter(p),
        s.filter(p)[s.take(i).filter(p).len() as int] == s[i],
    decreases s.len(),
{
    let n = s.take(i).filter(p).len() as int;
    let rest = s.drop_last();
    assert(rest.push(s.last()) =~= s);
    lemma_filter_push(rest, s.last(), p);
    if i == s.len() - 1 {
        assert(s.take(i) =~= rest);
        assert(s.filter(p).take(n) =~= rest.filter(p));
    } else {
        assert(rest.take(i) =~= s.take(i));
        lemma_filter_prefix(rest, i, p);
        assert(s.filter(p).take(n) =~= rest.filter(p).take(n));
    }
}

/// The channel network of the watershed made of `units`.
///
/// `features` is what a sweep over the watershed's bounding rectangle found, or
/// `None` where the dataset declares no snap features. The rectangle also holds
/// features of units outside the watershed; those are left out. The others are
/// measured as in [`geodesic_channel_length`], and the first without a length is
/// reported.
pub fn upstream_reaches<M, K>(
    units: &PreMergeDrainageUnits,
    features: Option<&Vec<SnapFeature>>,
    metres: &M,
    to_km: &K,
) -> (r: Result<UpstreamReaches, ReachError>) where
    M: Fn(&Geometry) -> Scalar,
    K: Fn(Scalar) -> Scalar,

    requires
        forall|g: &Geometry| #[trigger] call_requires(metres, (g,)),
        forall|m: Scalar| m.finite() ==> call_requires(to_km, (m,)),
    ensures
        match features {
            None => r matches Err(ReachError::NoSnapAuxForLevel { level }) && level == units@.level,
            Some(features) => match r {
                Ok(network) => {
                    &&& network@.terminal == units@.terminal
                    &&& network@.level == units@.level
                    &&& are_reaches_of(
                        *metres,
                        *to_km,
                        retained(units@, features@),
                        network@.reaches,
                    )
                },
                Err(ReachError::ReachLength { snap_id, source }) => is_first_failure(
                    *metres,
                    *to_km,
                    retained(units@, features@),
                    snap_id,
                    source,
                ),
                Err(ReachError::NoSnapAuxForLevel { .. }) => false,
            },
        },
{
    let found = match features {
        Some(found) => found,
        None => {
            return Err(ReachError::NoSnapAuxForLevel { level: units.selected_level() });
        },
    };
    let records = units.units();
    let mut members: HashSet<i64> = HashSet::new();
    for i in 0..records.len()
        invariant
            forall|raw: i64| #[trigger]
                members@.contains(raw) <==> exists|k: int|
                    0 <= k < i && (#[trigger] records@[k])@.id@ == raw,
    {
        let ghost before = members@;
        members.insert(records[i].id().get());
        assert forall|raw: i64| #[trigger] members@.contains(raw) <==> exists|k: int|
            0 <= k < i + 1 && (#[trigger] records@[k])@.id@ == raw by {
            assert(before.contains(raw) <==> exists|k: int|
                0 <= k < i && (#[trigger] records@[k])@.id@ == raw);
            if raw == records@[i as int]@.id@ {
                assert(members@.contains(raw));
            }
        }
    }
    let ghost p = |feature: SnapFeature| units@.has_member(feature.unit_id);
    let ghost all = found@;
    assert forall|id: UnitId| units@.has_member(id) <==> members@.contains(#[trigger] id@) by {
        if members@.contains(id@) {
            let k = choose|k: int| 0 <= k < records@.len() && (#[trigger] records@[k])@.id@ == id@;
            UnitId::law_identified_by_value(records@[k]@.id, id);
            assert(units@.units[k].id == id);
        }
        if units@.has_member(id) {
            let k = choose|k: int| 0 <= k < units@.units.len() && (#[trigger] units@.units[k]).id == id;
            assert(records@[k]@.id@ == id@);
        }
    }
    let mut reaches: Vec<DrainageReach> = Vec::new();
    proof {
        lemma_filter_empty(p);
        assert(all.take(0) =~= Seq::<SnapFeature>::empty());
    }
    for i in 0..found.len()
        invariant
            forall|g: &Geometry| #[trigger] call_requires(metres, (g,)),
            forall|m: Scalar| m.finite() ==> call_requires(to_km, (m,)),
            features == Some(found),
            all == found@,
            p == (|feature: SnapFeature| units@.has_member(feature.unit_id)),
            forall|id: UnitId| units@.has_member(id) <==> members@.contains(#[trigger] id@),
            are_reaches_of(
                *metres,
                *to_km,
                all.take(i as int).filter(p),
                reaches_view(reaches@),
            ),
    {
        let ghost seen = all.take(i as int);
        let ghost kept = seen.filter(p);
        let ghost feature = all[i as int];
        proof {
            assert(all.take(i + 1) =~= seen.push(feature));
            lemma_filter_push(seen, feature, p);
        }
        if members.contains(&found[i].unit_id.get()) {
            assert(p(feature));
            let feature = &found[i];
            match geodesic_channel_length(&feature.geometry, metres, to_km) {
                Ok(length) => {
                    let wkb = feature.geometry_wkb.clone();
                    assert(wkb@ =~= feature.geometry_wkb@);
                    let reach = DrainageReach::new(
                        feature.snap_id,
                        feature.unit_id,
                        feature.stem_role,
                        feature.weight,
                        length,
                        feature.geometry.clone(),
                        wkb,
                    );
                    let ghost before = reaches@;
                    reaches.push(reach);
                    proof {
                        assert(reaches_view(reaches@) =~= reaches_view(before).push(reach@));
                        assert forall|k: int|
                            0 <= k < reaches_view(reaches@).len() implies is_reach_of(
                            *metres,
                            *to_km,
                            kept.push(*feature)[k],
                            #[trigger] reaches_view(reaches@)[k],
                        ) by {
                            if k < before.len() {
                                assert(reaches_view(before)[k] == reaches_view(reaches@)[k]);
                            }
                        }
                    }
                },
                Err(source) => {
                    proof {
                        let n = kept.len() as int;
                        lemma_filter_prefix(all, i as int, p);
                        let whole = retained(units@, all);
                        assert(whole == all.filter(p));
                        assert(whole.take(n) =~= kept);
                        assert(whole[n] == *feature);
                        assert(are_reaches_of(
                            *metres,
                            *to_km,
                            whole.take(n),
                            reaches_view(reaches@),
                        ));
                    }
                    return Err(ReachError::ReachLength { snap_id: feature.snap_id, source });
                },
            }
        }
    }
    assert(all.take(all.len() as int) =~= all);
    Ok(UpstreamReaches::new(units.terminal(), units.selected_level(), reaches))
}

/// What a filter keeps, and only that, passes it and was there before.
proof fn lemma_filter_members<T>(s: Seq<T>, p: spec_fn(T) -> bool)
    ensures
        forall|i: int|
            0 <= i < s.filter(p).len() ==> p(#[trigger] s.filter(p)[i]) && s.contains(
                s.filter(p)[i],
            ),
        forall|i: int|
            0 <= i < s.len() && p(#[trigger] s[i]) ==> s.filter(p).contains(s[i]),
    decreases s.len(),
{
    if s.len() == 0 {
        lemma_filter_empty(p);
        assert(s =~= Seq::<T>::empty());
    } else {
        let rest = s.drop_last();
        let last = s.last();
        assert(rest.push(last) =~= s);
        lemma_filter_push(rest, last, p);
        lemma_filter_members(rest, p);
        assert(s[s.len() - 1] == last);
        assert forall|i: int| 0 <= i < s.filter(p).len() implies p(#[trigger] s.filter(p)[i])
            && s.contains(s.filter(p)[i]) by {
            if i < rest.filter(p).len() {
                let t = rest.filter(p)[i];
                assert(rest.contains(t));
                let k = choose|k: int| 0 <= k < rest.len() && rest[k] == t;
                assert(s[k] == t);
            }
        }
        assert forall|i: int| 0 <= i < s.len() && p(#[trigger] s[i]) implies s.filter(p).contains(
            s[i],
        ) by {
            if i < rest.len() {
                assert(rest[i] == s[i]);
                let k = choose|k: int| 0 <= k < rest.filter(p).len() && rest.filter(p)[k] == s[i];
                assert(s.filter(p)[k] == s[i]);
            } else {
                assert(s.filter(p)[rest.filter(p).len() as int] == last);
            }
        }
    }
}

/// A network holds exactly the reaches of the delineated units: each of its
/// reaches belongs to one of them, and each feature of one of them is a reach.
pub proof fn law_network_is_the_membership<M, K>(
    metres: M,
    to_km: K,
    units: UnitsRecord,
    features: Seq<SnapFeature>,
    reaches: Seq<ReachRecord>,
) where M: Fn(&Geometry) -> Scalar, K: Fn(Scalar) -> Scalar
    requires
        are_reaches_of(metres, to_km, retained(units, features), reaches),
    ensures
        forall|i: int| 0 <= i < reaches.len() ==> units.has_member((#[trigger] reaches[i]).unit_id),
        forall|k: int|
            0 <= k < features.len() && units.has_member((#[trigger] features[k]).unit_id)
                ==> exists|i: int|
                0 <= i < reaches.len() && is_reach_of(
                    metres,
                    to_km,
                    features[k],
                    #[trigger] reaches[i],
                ),
{
    let p = |feature: SnapFeature| units.has_member(feature.unit_id);
    lemma_filter_members(features, p);
    let kept = retained(units, features);
    assert forall|i: int| 0 <= i < reaches.len() implies units.has_member(
        (#[trigger] reaches[i]).unit_id,
    ) by {
        assert(p(kept[i]));
    }
    assert forall|k: int|
        0 <= k < features.len() && units.has_member(
            (#[trigger] features[k]).unit_id,
        ) implies exists|i: int|
        0 <= i < reaches.len() && is_reach_of(
            metres,
            to_km,
            features[k],
            #[trigger] reaches[i],
        ) by {
        assert(p(features[k]));
        assert(kept.contains(features[k]));
        let i = choose|i: int| 0 <= i < kept.len() && kept[i] == features[k];
        assert(is_reach_of(metres, to_km, kept[i], reaches[i]));
    }
}

/// The reaches for which the fabric declares no role.
pub open spec fn without_role(reaches: Seq<ReachRecord>) -> Seq<ReachRecord> {
    reaches.filter(|reach: ReachRecord| reach.stem_role is None)
}

proof fn lemma_carrying_start(role: StemRole)
    ensures
        carrying(Seq::empty(), role).len() == 0,
{
    lemma_filter_empty(|reach: ReachRecord| reach.stem_role == Some(role));
}

proof fn lemma_carrying_push(reaches: Seq<ReachRecord>, reach: ReachRecord, role: StemRole)
    ensures
        carrying(reaches.push(reach), role).len() == carrying(reaches, role).len()
            + if reach.stem_role == Some(role) {
            1nat
        } else {
            0nat
        },
{
    lemma_filter_push(reaches, reach, |reach: ReachRecord| reach.stem_role == Some(role));
}

/// Where every reach carries a role, the length of that role is the length of
/// all.
pub proof fn law_shared_role_has_all_the_length<A>(
    plus: A,
    reaches: Seq<ReachRecord>,
    role: StemRole,
    total: ChannelLengthKm,
) where A: Fn(ChannelLengthKm, ChannelLengthKm) -> ChannelLengthKm
    requires
        forall|i: int| 0 <= i < reaches.len() ==> (#[trigger] reaches[i]).stem_role == Some(role),
    ensures
        is_sum(plus, lengths_of(carrying(reaches, role)), total) <==> is_sum(
            plus,
            lengths_of(reaches),
            total,
        ),
{
    lemma_filter_all(reaches, |reach: ReachRecord| reach.stem_role == Some(role));
}

/// Where no reach carries a role, that role has no length.
pub proof fn law_absent_role_has_no_length<A>(
    plus: A,
    reaches: Seq<ReachRecord>,
    role: StemRole,
    total: ChannelLengthKm,
) where A: Fn(ChannelLengthKm, ChannelLengthKm) -> ChannelLengthKm
    requires
        carrying(reaches, role).len() == 0,
    ensures
        is_sum(plus, lengths_of(carrying(reaches, role)), total) <==> total == no_length(),
{
    let none = lengths_of(carrying(reaches, role));
    assert(none.len() == 0);
    if total == no_length() {
        let sums = seq![no_length()];
        assert(are_partial_sums(plus, none, sums));
    }
}

/// Adding a length to a sum neither shrinks the sum nor changes which of two sums
/// is the smaller.
pub open spec fn adds_up<A>(plus: A) -> bool where
    A: Fn(ChannelLengthKm, ChannelLengthKm) -> ChannelLengthKm,
 {
    &&& forall|a: ChannelLengthKm, c: ChannelLengthKm, s: ChannelLengthKm|
        no_length().km.at_most(a.km) && no_length().km.at_most(c.km) && #[trigger] call_ensures(
            plus,
            (a, c),
            s,
        ) ==> a.km.at_most(s.km)
    &&& forall|
        a: ChannelLengthKm,
        b: ChannelLengthKm,
        c: ChannelLengthKm,
        s: ChannelLengthKm,
        t: ChannelLengthKm,
    |
        no_length().km.at_most(a.km) && a.km.at_most(b.km) && no_length().km.at_most(c.km)
            && #[trigger] call_ensures(plus, (a, c), s) && #[trigger] call_ensures(plus, (b, c), t)
            ==> s.km.at_most(t.km)
}

proof fn lemma_partial_sums_pop<A>(
    plus: A,
    lengths: Seq<ChannelLengthKm>,
    length: ChannelLengthKm,
    sums: Seq<ChannelLengthKm>,
) where A: Fn(ChannelLengthKm, ChannelLengthKm) -> ChannelLengthKm
    requires
        are_partial_sums(plus, lengths.push(length), sums),
    ensures
        are_partial_sums(plus, lengths, sums.drop_last()),
        call_ensures(plus, (sums.drop_last().last(), length), sums.last()),
{
    let more = lengths.push(length);
    let before = sums.drop_last();
    assert forall|i: int| 0 <= i < lengths.len() implies call_ensures(
        plus,
        (before[i], #[trigger] lengths[i]),
        before[i + 1],
    ) by {
        assert(more[i] == lengths[i]);
    }
    assert(more[lengths.len() as int] == length);
}

proof fn lemma_role_is_part<A>(
    plus: A,
    reaches: Seq<ReachRecord>,
    role: StemRole,
    parts: Seq<ChannelLengthKm>,
    sums: Seq<ChannelLengthKm>,
) where A: Fn(ChannelLengthKm, ChannelLengthKm) -> ChannelLengthKm
    requires
        adds_up(plus),
        forall|i: int|
            0 <= i < reaches.len() ==> no_length().km.at_most((#[trigger] reaches[i]).length.km),
        are_partial_sums(plus, lengths_of(carrying(reaches, role)), parts),
        are_partial_sums(plus, lengths_of(reaches), sums),
    ensures
        no_length().km.at_most(parts.last().km),
        parts.last().km.at_most(sums.last().km),
    decreases reaches.len(),
{
    let p = |reach: ReachRecord| reach.stem_role == Some(role);
    if reaches.len() == 0 {
        lemma_filter_empty(p);
        assert(reaches =~= Seq::<ReachRecord>::empty());
        assert(carrying(reaches, role).len() == 0);
    } else {
        let rest = reaches.drop_last();
        let last = reaches.last();
        assert(rest.push(last) =~= reaches);
        lemma_filter_push(rest, last, p);
        assert(lengths_of(reaches) =~= lengths_of(rest).push(last.length));
        lemma_partial_sums_pop(plus, lengths_of(rest), last.length, sums);
        assert(no_length().km.at_most(reaches[reaches.len() - 1].length.km));
        if last.stem_role == Some(role) {
            let kept = carrying(rest, role);
            assert(lengths_of(carrying(reaches, role)) =~= lengths_of(kept).push(last.length));
            lemma_partial_sums_pop(plus, lengths_of(kept), last.length, parts);
            lemma_role_is_part(plus, rest, role, parts.drop_last(), sums.drop_last());
        } else {
            lemma_role_is_part(plus, rest, role, parts, sums.drop_last());
        }
    }
}

/// Where no length is below zero, a role has no less than no length and no more
/// than the whole network.
pub proof fn law_role_is_part_of_the_length<A>(
    plus: A,
    reaches: Seq<ReachRecord>,
    role: StemRole,
    part: ChannelLengthKm,
    total: ChannelLengthKm,
) where A: Fn(ChannelLengthKm, ChannelLengthKm) -> ChannelLengthKm
    requires
        adds_up(plus),
        forall|i: int|
            0 <= i < reaches.len() ==> no_length().km.at_most((#[trigger] reaches[i]).length.km),
        is_sum(plus, lengths_of(carrying(reaches, role)), part),
        is_sum(plus, lengths_of(reaches), total),
    ensures
        no_length().km.at_most(part.km),
        part.km.at_most(total.km),
{
    let parts = choose|sums: Seq<ChannelLengthKm>| #[trigger]
        are_partial_sums(plus, lengths_of(carrying(reaches, role)), sums) && part == sums.last();
    let sums = choose|sums: Seq<ChannelLengthKm>| #[trigger]
        are_partial_sums(plus, lengths_of(reaches), sums) && total == sums.last();
    lemma_role_is_part(plus, reaches, role, parts, sums);
}

/// Every reach carries exactly one role, or none: the counts add up.
pub proof fn law_roles_add_up(reaches: Seq<ReachRecord>)
    ensures
        reaches.len() == carrying(reaches, StemRole::Mainstem).len() + carrying(
            reaches,
            StemRole::Tributary,
        ).len() + carrying(reaches, StemRole::Distributary).len() + carrying(
            reaches,
            StemRole::Unknown,
        ).len() + without_role(reaches).len(),
    decreases reaches.len(),
{
    if reaches.len() == 0 {
        assert(reaches =~= Seq::<ReachRecord>::empty());
        lemma_carrying_start(StemRole::Mainstem);
        lemma_carrying_start(StemRole::Tributary);
        lemma_carrying_start(StemRole::Distributary);
        lemma_carrying_start(StemRole::Unknown);
        lemma_filter_empty(|reach: ReachRecord| reach.stem_role is None);
    } else {
        let rest = reaches.drop_last();
        let last = reaches.last();
        assert(rest.push(last) =~= reaches);
        law_roles_add_up(rest);
        lemma_carrying_push(rest, last, StemRole::Mainstem);
        lemma_carrying_push(rest, last, StemRole::Tributary);
        lemma_carrying_push(rest, last, StemRole::Distributary);
        lemma_carrying_push(rest, last, StemRole::Unknown);
        lemma_filter_push(rest, last, |reach: ReachRecord| reach.stem_role is None);
        match last.stem_role {
            None => {},
            Some(StemRole::Mainstem) => {},
            Some(StemRole::Tributary) => {},
            Some(StemRole::Distributary) => {},
            Some(StemRole::Unknown) => {},
        }
    }
}

// ---- what a network keeps of its features ----

/// Features are retained one after another, each exactly where a unit has the
/// identifier that the feature names.
pub proof fn law_features_of_the_units_are_retained(
    units: UnitsRecord,
    features: Seq<SnapFeature>,
    feature: SnapFeature,
)
    ensures
        retained(units, Seq::empty()).len() == 0,
        (exists|i: int|
            0 <= i < units.units.len() && (#[trigger] units.units[i]).id == feature.unit_id)
            ==> retained(units, features.push(feature)) == retained(units, features).push(feature),
        (forall|i: int|
            0 <= i < units.units.len() ==> (#[trigger] units.units[i]).id != feature.unit_id)
            ==> retained(units, features.push(feature)) == retained(units, features),
{
    let p = |feature: SnapFeature| units.has_member(feature.unit_id);
    lemma_filter_empty(p);
    lemma_filter_push(features, feature, p);
    if exists|i: int|
        0 <= i < units.units.len() && (#[trigger] units.units[i]).id == feature.unit_id {
        assert(p(feature));
    }
    if forall|i: int|
        0 <= i < units.units.len() ==> (#[trigger] units.units[i]).id != feature.unit_id {
        assert(!p(feature));
    }
}

/// A reach has all that its feature declares, and the length that was measured of
/// its geometry.
pub proof fn law_reach_keeps_its_feature<M, K>(
    metres: M,
    to_km: K,
    features: Seq<SnapFeature>,
    reaches: Seq<ReachRecord>,
    i: int,
) where M: Fn(&Geometry) -> Scalar, K: Fn(Scalar) -> Scalar
    requires
        are_reaches_of(metres, to_km, features, reaches),
        0 <= i < features.len(),
    ensures
        reaches.len() == features.len(),
        reaches[i].snap_id == features[i].snap_id,
        reaches[i].unit_id == features[i].unit_id,
        reaches[i].stem_role == features[i].stem_role,
        reaches[i].weight == features[i].weight,
        reaches[i].geometry == features[i].geometry@,
        reaches[i].geometry_wkb == features[i].geometry_wkb@,
        is_channel_length(metres, to_km, &features[i].geometry, Ok(reaches[i].length)),
{
    assert(is_reach_of(metres, to_km, features[i], reaches[i]));
}

/// A reported reach is the first of the features that has no length.
pub proof fn law_reported_reach_is_the_first_without_length<M, K>(
    metres: M,
    to_km: K,
    features: Seq<SnapFeature>,
    snap_id: SnapId,
    source: ChannelLengthError,
) where M: Fn(&Geometry) -> Scalar, K: Fn(Scalar) -> Scalar
    requires
        is_first_failure(metres, to_km, features, snap_id, source),
    ensures
        exists|i: int|
            {
                &&& 0 <= i < features.len()
                &&& (#[trigger] features[i]).snap_id == snap_id
                &&& is_channel_length(metres, to_km, &features[i].geometry, Err(source))
                &&& forall|j: int|
                    0 <= j < i ==> exists|length: ChannelLengthKm| #[trigger]
                        is_channel_length(
                            metres,
                            to_km,
                            &(#[trigger] features[j]).geometry,
                            Ok(length),
                        )
            },
{
    let (i, before) = choose|i: int, before: Seq<ReachRecord>|
        {
            &&& 0 <= i < features.len()
            &&& #[trigger] are_reaches_of(metres, to_km, features.take(i), before)
            &&& features[i].snap_id == snap_id
            &&& is_channel_length(metres, to_km, &features[i].geometry, Err(source))
        };
    assert forall|j: int| 0 <= j < i implies exists|length: ChannelLengthKm| #[trigger]
        is_channel_length(metres, to_km, &(#[trigger] features[j]).geometry, Ok(length)) by {
        assert(features.take(i)[j] == features[j]);
        assert(is_reach_of(metres, to_km, features.take(i)[j], before[j]));
        assert(is_channel_length(metres, to_km, &features[j].geometry, Ok(before[j].length)));
    }
    assert(features[i].snap_id == snap_id);
}

/// The reaches of a role are found one after another, each exactly where it declares
/// that role; their lengths are theirs, in order.
pub proof fn law_reaches_of_a_role(
    reaches: Seq<ReachRecord>,
    reach: ReachRecord,
    role: StemRole,
    i: int,
)
    ensures
        carrying(Seq::empty(), role).len() == 0,
        reach.stem_role == Some(role) ==> carrying(reaches.push(reach), role) == carrying(
            reaches,
            role,
        ).push(reach),
        reach.stem_role != Some(role) ==> carrying(reaches.push(reach), role) == carrying(
            reaches,
            role,
        ),
        lengths_of(reaches).len() == reaches.len(),
        0 <= i < reaches.len() ==> lengths_of(reaches)[i] == reaches[i].length,
{
    let p = |reach: ReachRecord| reach.stem_role == Some(role);
    lemma_filter_empty(p);
    lemma_filter_push(reaches, reach, p);
}

} // verus!
