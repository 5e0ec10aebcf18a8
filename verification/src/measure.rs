//! Channel lengths and watershed perimeters, geodesic on WGS84.
//!
//! Lengths are measured by the caller, in metres, on the ellipsoid: always the
//! same measure, so that lengths, perimeters and areas can be set in relation.
//! This module decides what is measured and what counts as a length.
use std::cmp::Ordering;
use vstd::prelude::*;

use crate::geometry::geometry_variant_name;
use crate::geometry::variant_name;
use crate::geometry::Coord;
use crate::geometry::Geometry;
use crate::geometry::MultiPolygon;
use crate::geometry::Polygon;
use crate::scalar::Scalar;

verus! {

/// Channel length in kilometres.
///
/// Distinct from [`PerimeterKm`]: taking a perimeter for a channel length would
/// turn drainage density into a shape index.
#[derive(Clone, Copy, Debug)]
pub struct ChannelLengthKm {
    pub km: Scalar,
}

impl PartialEq for ChannelLengthKm {
    fn eq(&self, other: &Self) -> (r: bool) {
        self.km.equals(other.km)
    }
}

impl vstd::std_specs::cmp::PartialEqSpecImpl for ChannelLengthKm {
    open spec fn obeys_eq_spec() -> bool {
        true
    }

    open spec fn eq_spec(&self, other: &Self) -> bool {
        self.km.equal(other.km)
    }
}

impl PartialOrd for ChannelLengthKm {
    fn partial_cmp(&self, other: &Self) -> (r: Option<Ordering>) {
        self.km.partial_cmp(&other.km)
    }
}

impl vstd::std_specs::cmp::PartialOrdSpecImpl for ChannelLengthKm {
    open spec fn obeys_partial_cmp_spec() -> bool {
        true
    }

    open spec fn partial_cmp_spec(&self, other: &Self) -> Option<Ordering> {
        self.km.ordered(other.km)
    }
}

impl ChannelLengthKm {
    pub fn new(km: Scalar) -> (r: Self)
        ensures
            r.km == km,
    {
        ChannelLengthKm { km }
    }

    /// A channel without length, where summation starts.
    pub fn zero() -> (r: Self)
        ensures
            r == no_length(),
    {
        ChannelLengthKm { km: Scalar::zero() }
    }

    /// The number of kilometres.
    pub fn as_f64(self) -> (r: Scalar)
        ensures
            r == self.km,
    {
        self.km
    }

    /// The length with its unit. `number` writes a number.
    pub fn display<N>(self, number: &N) -> (r: String) where N: Fn(Scalar) -> String
        requires
            call_requires(number, (self.km,)),
        ensures
            is_written(*number, ""@, self.km, " km"@, r@),
    {
        with_number("", self.km, " km", number)
    }
}

/// `result` is `number`'s text of `value`, between `before` and `after`.
pub open spec fn is_written<N>(
    number: N,
    before: Seq<char>,
    value: Scalar,
    after: Seq<char>,
    result: Seq<char>,
) -> bool where N: Fn(Scalar) -> String {
    exists|text: String| #[trigger]
        call_ensures(number, (value,), text) && result == before + text@ + after
}

fn with_number<N>(before: &str, value: Scalar, after: &str, number: &N) -> (r: String) where
    N: Fn(Scalar) -> String,

    requires
        call_requires(number, (value,)),
    ensures
        is_written(*number, before@, value, after@, r@),
{
    let written = number(value);
    let mut text = before.to_owned();
    text.append(written.as_str());
    text.append(after);
    text
}

/// A channel without length.
pub open spec fn no_length() -> ChannelLengthKm {
    ChannelLengthKm { km: Scalar { bits: 0 } }
}

/// `total` comes from adding `lengths` in their order, starting without length.
pub open spec fn is_sum<A>(plus: A, lengths: Seq<ChannelLengthKm>, total: ChannelLengthKm) -> bool where
    A: Fn(ChannelLengthKm, ChannelLengthKm) -> ChannelLengthKm,
 {
    exists|sums: Seq<ChannelLengthKm>| #[trigger] are_partial_sums(plus, lengths, sums) && total
        == sums.last()
}

/// `sums` are the results of adding `lengths` one after the other.
pub open spec fn are_partial_sums<A>(
    plus: A,
    lengths: Seq<ChannelLengthKm>,
    sums: Seq<ChannelLengthKm>,
) -> bool where A: Fn(ChannelLengthKm, ChannelLengthKm) -> ChannelLengthKm {
    &&& sums.len() == lengths.len() + 1
    &&& sums[0] == no_length()
    &&& forall|i: int|
        0 <= i < lengths.len() ==> call_ensures(plus, (sums[i], #[trigger] lengths[i]), sums[i + 1])
}

/// Adds lengths in their order, starting without length.
pub fn sum_lengths<A>(lengths: &Vec<ChannelLengthKm>, plus: &A) -> (total: ChannelLengthKm) where
    A: Fn(ChannelLengthKm, ChannelLengthKm) -> ChannelLengthKm,

    requires
        forall|a: ChannelLengthKm, b: ChannelLengthKm| call_requires(plus, (a, b)),
    ensures
        is_sum(*plus, lengths@, total),
{
    let mut total = ChannelLengthKm::zero();
    let ghost mut sums = seq![no_length()];
    for i in 0..lengths.len()
        invariant
            forall|a: ChannelLengthKm, b: ChannelLengthKm| call_requires(plus, (a, b)),
            are_partial_sums(*plus, lengths@.take(i as int), sums),
            total == sums.last(),
    {
        let ghost before = lengths@.take(i as int);
        let ghost earlier = sums;
        let more = plus(total, lengths[i]);
        total = more;
        proof {
            sums = sums.push(total);
            let after = lengths@.take(i + 1);
            assert forall|k: int| 0 <= k < after.len() implies call_ensures(
                *plus,
                (sums[k], #[trigger] after[k]),
                sums[k + 1],
            ) by {
                if k < i {
                    assert(before[k] == after[k]);
                    assert(sums[k] == earlier[k] && sums[k + 1] == earlier[k + 1]);
                }
            }
        }
    }
    assert(lengths@.take(lengths@.len() as int) =~= lengths@);
    total
}

/// The watershed area in square kilometres.
#[derive(Clone, Copy, Debug)]
pub struct WatershedAreaKm2 {
    pub km2: Scalar,
}

impl PartialEq for WatershedAreaKm2 {
    fn eq(&self, other: &Self) -> (r: bool) {
        self.km2.equals(other.km2)
    }
}

impl vstd::std_specs::cmp::PartialEqSpecImpl for WatershedAreaKm2 {
    open spec fn obeys_eq_spec() -> bool {
        true
    }

    open spec fn eq_spec(&self, other: &Self) -> bool {
        self.km2.equal(other.km2)
    }
}

impl PartialOrd for WatershedAreaKm2 {
    fn partial_cmp(&self, other: &Self) -> (r: Option<Ordering>) {
        self.km2.partial_cmp(&other.km2)
    }
}

impl vstd::std_specs::cmp::PartialOrdSpecImpl for WatershedAreaKm2 {
    open spec fn obeys_partial_cmp_spec() -> bool {
        true
    }

    open spec fn partial_cmp_spec(&self, other: &Self) -> Option<Ordering> {
        self.km2.ordered(other.km2)
    }
}

/// Perimeter in kilometres.
#[derive(Clone, Copy, Debug)]
pub struct PerimeterKm {
    pub km: Scalar,
}

impl PartialEq for PerimeterKm {
    fn eq(&self, other: &Self) -> (r: bool) {
        self.km.equals(other.km)
    }
}

impl vstd::std_specs::cmp::PartialEqSpecImpl for PerimeterKm {
    open spec fn obeys_eq_spec() -> bool {
        true
    }

    open spec fn eq_spec(&self, other: &Self) -> bool {
        self.km.equal(other.km)
    }
}

impl PartialOrd for PerimeterKm {
    fn partial_cmp(&self, other: &Self) -> (r: Option<Ordering>) {
        self.km.partial_cmp(&other.km)
    }
}

impl vstd::std_specs::cmp::PartialOrdSpecImpl for PerimeterKm {
    open spec fn obeys_partial_cmp_spec() -> bool {
        true
    }

    open spec fn partial_cmp_spec(&self, other: &Self) -> Option<Ordering> {
        self.km.ordered(other.km)
    }
}

impl PerimeterKm {
    pub fn new(km: Scalar) -> (r: Self)
        ensures
            r.km == km,
    {
        PerimeterKm { km }
    }

    /// The number of kilometres.
    pub fn as_f64(self) -> (r: Scalar)
        ensures
            r == self.km,
    {
        self.km
    }

    /// The perimeter with its unit. `number` writes a number.
    pub fn display<N>(self, number: &N) -> (r: String) where N: Fn(Scalar) -> String
        requires
            call_requires(number, (self.km,)),
        ensures
            is_written(*number, ""@, self.km, " km"@, r@),
    {
        with_number("", self.km, " km", number)
    }
}

/// Why a geometry has no channel length.
#[derive(Clone, Copy, Debug, PartialEq)]
pub enum ChannelLengthError {
    /// The geometry is not linear.
    ///
    /// A point has no length, and to count it as zero would understate drainage
    /// density without saying so.
    NotLinear {
        /// The kind of the geometry.
        geometry_type: &'static str,
    },
    /// The measured length is not finite.
    NonFiniteLength {
        /// The measured length in metres.
        raw_m: Scalar,
    },
}

impl ChannelLengthError {
    /// What went wrong. `number` writes a number.
    pub fn message<N>(&self, number: &N) -> (r: String) where N: Fn(Scalar) -> String
        requires
            forall|s: Scalar| call_requires(number, (s,)),
        ensures
            match *self {
                ChannelLengthError::NotLinear { geometry_type } => r@
                    == "expected linear geometry for channel length, found "@ + geometry_type@,
                ChannelLengthError::NonFiniteLength { raw_m } => is_written(
                    *number,
                    "geodesic channel length returned non-finite value: "@,
                    raw_m,
                    " m"@,
                    r@,
                ),
            },
    {
        match *self {
            ChannelLengthError::NotLinear { geometry_type } => {
                let mut text = "expected linear geometry for channel length, found ".to_owned();
                text.append(geometry_type);
                text
            },
            ChannelLengthError::NonFiniteLength { raw_m } => with_number(
                "geodesic channel length returned non-finite value: ",
                raw_m,
                " m",
                number,
            ),
        }
    }
}

/// Why a watershed has no perimeter.
#[derive(Clone, Copy, Debug, PartialEq)]
pub enum WatershedPerimeterError {
    /// There are no polygons.
    EmptyGeometry,
    /// The measured perimeter is not finite.
    NonFinitePerimeter {
        /// The measured perimeter in metres.
        raw_m: Scalar,
    },
}

impl WatershedPerimeterError {
    /// What went wrong. `number` writes a number.
    pub fn message<N>(&self, number: &N) -> (r: String) where N: Fn(Scalar) -> String
        requires
            forall|s: Scalar| call_requires(number, (s,)),
        ensures
            match *self {
                WatershedPerimeterError::EmptyGeometry => r@
                    == "cannot compute perimeter of empty geometry"@,
                WatershedPerimeterError::NonFinitePerimeter { raw_m } => is_written(
                    *number,
                    "geodesic perimeter returned non-finite value: "@,
                    raw_m,
                    " m"@,
                    r@,
                ),
            },
    {
        match *self {
            WatershedPerimeterError::EmptyGeometry => {
                "cannot compute perimeter of empty geometry".to_owned()
            },
            WatershedPerimeterError::NonFinitePerimeter { raw_m } => with_number(
                "geodesic perimeter returned non-finite value: ",
                raw_m,
                " m",
                number,
            ),
        }
    }
}

/// The geodesic length of a reach centreline.
///
/// `metres(reach)` measures a line or a list of lines; `to_km` converts what it
/// measured. Nothing but lines is ever measured.
pub fn geodesic_channel_length<M, K>(reach: &Geometry, metres: &M, to_km: &K) -> (r: Result<
    ChannelLengthKm,
    ChannelLengthError,
>) where M: Fn(&Geometry) -> Scalar, K: Fn(Scalar) -> Scalar
    requires
        !(reach@ is Other) ==> call_requires(metres, (reach,)),
        forall|m: Scalar| m.finite() ==> call_requires(to_km, (m,)),
    ensures
        is_channel_length(*metres, *to_km, reach, r),
{
    match reach {
        Geometry::Other(_) => {
            return Err(
                ChannelLengthError::NotLinear { geometry_type: geometry_variant_name(reach) },
            );
        },
        _ => {},
    }
    let raw_m = metres(reach);
    if !raw_m.is_finite() {
        return Err(ChannelLengthError::NonFiniteLength { raw_m });
    }
    let km = to_km(raw_m);
    Ok(ChannelLengthKm::new(km))
}

/// `result` is what measuring `reach` gives: for lines the measured length in
/// kilometres, or the measured length as an error where it is not finite; for
/// anything else an error that names its kind.
pub open spec fn is_channel_length<M, K>(
    metres: M,
    to_km: K,
    reach: &Geometry,
    result: Result<ChannelLengthKm, ChannelLengthError>,
) -> bool where M: Fn(&Geometry) -> Scalar, K: Fn(Scalar) -> Scalar {
    if reach@ is Other {
        result matches Err(ChannelLengthError::NotLinear { geometry_type }) && geometry_type@
            == variant_name(reach@)
    } else {
        match result {
            Ok(length) => exists|m: Scalar| #[trigger]
                call_ensures(metres, (reach,), m) && m.finite() && call_ensures(
                    to_km,
                    (m,),
                    length.km,
                ),
            Err(ChannelLengthError::NonFiniteLength { raw_m }) => call_ensures(
                metres,
                (reach,),
                raw_m,
            ) && !raw_m.finite(),
            Err(ChannelLengthError::NotLinear { .. }) => false,
        }
    }
}

/// `result` is the perimeter that was measured as `m` metres.
pub open spec fn is_perimeter<K>(
    to_km: K,
    m: Scalar,
    result: Result<PerimeterKm, WatershedPerimeterError>,
) -> bool where K: Fn(Scalar) -> Scalar {
    match result {
        Ok(perimeter) => m.finite() && call_ensures(to_km, (m,), perimeter.km),
        Err(e) => !m.finite() && e == (WatershedPerimeterError::NonFinitePerimeter { raw_m: m }),
    }
}

/// The perimeter that was measured as `raw_m` metres.
fn accept_perimeter<K>(raw_m: Scalar, to_km: &K) -> (r: Result<
    PerimeterKm,
    WatershedPerimeterError,
>) where K: Fn(Scalar) -> Scalar
    requires
        forall|m: Scalar| m.finite() ==> call_requires(to_km, (m,)),
    ensures
        is_perimeter(*to_km, raw_m, r),
{
    if !raw_m.is_finite() {
        return Err(WatershedPerimeterError::NonFinitePerimeter { raw_m });
    }
    let km = to_km(raw_m);
    Ok(PerimeterKm::new(km))
}

/// `result` is the perimeter that measuring the exterior ring of `polygon` gives.
pub open spec fn is_perimeter_of<M, K>(
    ring_metres: M,
    to_km: K,
    polygon: Polygon,
    result: Result<PerimeterKm, WatershedPerimeterError>,
) -> bool where M: Fn(&Vec<Coord>) -> Scalar, K: Fn(Scalar) -> Scalar {
    exists|m: Scalar| #[trigger]
        call_ensures(ring_metres, (&polygon.exterior,), m) && is_perimeter(to_km, m, result)
}

/// The geodesic perimeter of a polygon.
///
/// `ring_metres(ring)` measures a ring. Only the exterior ring is measured: the
/// boundary that shape indices refer to is the outer edge.
pub fn geodesic_perimeter<M, K>(polygon: &Polygon, ring_metres: &M, to_km: &K) -> (r: Result<
    PerimeterKm,
    WatershedPerimeterError,
>) where M: Fn(&Vec<Coord>) -> Scalar, K: Fn(Scalar) -> Scalar
    requires
        forall|ring: &Vec<Coord>| call_requires(ring_metres, (ring,)),
        forall|m: Scalar| m.finite() ==> call_requires(to_km, (m,)),
    ensures
        is_perimeter_of(*ring_metres, *to_km, *polygon, r),
{
    let raw_m = ring_metres(&polygon.exterior);
    accept_perimeter(raw_m, to_km)
}

/// `parts` are the measured exterior rings of `polygons`.
pub open spec fn are_exteriors<M>(
    ring_metres: M,
    polygons: Seq<Polygon>,
    parts: Seq<Scalar>,
) -> bool where M: Fn(&Vec<Coord>) -> Scalar {
    &&& parts.len() == polygons.len()
    &&& forall|i: int|
        0 <= i < polygons.len() ==> call_ensures(
            ring_metres,
            (&polygons[i].exterior,),
            #[trigger] parts[i],
        )
}

/// `result` is the perimeter that measuring the exterior rings of `polygons` and
/// adding up gives; an error where there is no polygon.
pub open spec fn is_perimeter_of_all<M, T, K>(
    ring_metres: M,
    total: T,
    to_km: K,
    polygons: Seq<Polygon>,
    result: Result<PerimeterKm, WatershedPerimeterError>,
) -> bool where
    M: Fn(&Vec<Coord>) -> Scalar,
    T: Fn(&Vec<Scalar>) -> Scalar,
    K: Fn(Scalar) -> Scalar,
 {
    if polygons.len() == 0 {
        result matches Err(e) && e is EmptyGeometry
    } else {
        exists|parts: Vec<Scalar>, m: Scalar|
            {
                &&& are_exteriors(ring_metres, polygons, parts@)
                &&& #[trigger] call_ensures(total, (&parts,), m)
                &&& is_perimeter(to_km, m, result)
            }
    }
}

/// The geodesic perimeter of a multi-polygon: the exterior rings of all its
/// polygons together.
///
/// `ring_metres(ring)` measures a ring, and `total(parts)` adds up what was
/// measured. A multi-polygon without polygons has no perimeter.
pub fn geodesic_perimeter_multi<M, T, K>(
    polygons: &MultiPolygon,
    ring_metres: &M,
    total: &T,
    to_km: &K,
) -> (r: Result<PerimeterKm, WatershedPerimeterError>) where
    M: Fn(&Vec<Coord>) -> Scalar,
    T: Fn(&Vec<Scalar>) -> Scalar,
    K: Fn(Scalar) -> Scalar,

    requires
        forall|ring: &Vec<Coord>| call_requires(ring_metres, (ring,)),
        forall|parts: &Vec<Scalar>| call_requires(total, (parts,)),
        forall|m: Scalar| m.finite() ==> call_requires(to_km, (m,)),
    ensures
        is_perimeter_of_all(*ring_metres, *total, *to_km, polygons.polygons@, r),
{
    if polygons.polygons.len() == 0 {
        return Err(WatershedPerimeterError::EmptyGeometry);
    }
    let mut parts: Vec<Scalar> = Vec::new();
    for i in 0..polygons.polygons.len()
        invariant
            forall|ring: &Vec<Coord>| call_requires(ring_metres, (ring,)),
            parts@.len() == i,
            forall|k: int|
                0 <= k < i ==> call_ensures(
                    ring_metres,
                    (&polygons.polygons@[k].exterior,),
                    #[trigger] parts@[k],
                ),
    {
        let part = ring_metres(&polygons.polygons[i].exterior);
        parts.push(part);
    }
    let raw_m = total(&parts);
    accept_perimeter(raw_m, to_km)
}

// ---- what does not count ----

/// Holes do not count towards the perimeter: polygons with the same exterior ring
/// have the same one.
pub proof fn law_holes_do_not_count<M, K>(
    ring_metres: M,
    to_km: K,
    solid: Polygon,
    holed: Polygon,
    result: Result<PerimeterKm, WatershedPerimeterError>,
) where M: Fn(&Vec<Coord>) -> Scalar, K: Fn(Scalar) -> Scalar
    requires
        solid.exterior == holed.exterior,
    ensures
        is_perimeter_of(ring_metres, to_km, solid, result) <==> is_perimeter_of(
            ring_metres,
            to_km,
            holed,
            result,
        ),
{
}

/// `ring_metres` measures rings with the same vertices alike.
pub open spec fn measures_vertices<M>(ring_metres: M) -> bool where M: Fn(&Vec<Coord>) -> Scalar {
    forall|a: Vec<Coord>, b: Vec<Coord>, m: Scalar, n: Scalar|
        a@ == b@ && #[trigger] call_ensures(ring_metres, (&a,), m) && #[trigger] call_ensures(
            ring_metres,
            (&b,),
            n,
        ) ==> m == n
}

/// `to_km` converts a number of metres to one number of kilometres.
pub open spec fn converts_uniquely<K>(to_km: K) -> bool where K: Fn(Scalar) -> Scalar {
    forall|m: Scalar, a: Scalar, b: Scalar| #[trigger]
        call_ensures(to_km, (m,), a) && #[trigger] call_ensures(to_km, (m,), b) ==> a == b
}

/// With measures that depend on the vertices alone, two polygons whose exterior
/// rings have the same vertices have exactly the same perimeter, whatever their
/// holes.
pub proof fn law_holed_measures_as_solid<M, K>(
    ring_metres: M,
    to_km: K,
    solid: Polygon,
    holed: Polygon,
    a: Result<PerimeterKm, WatershedPerimeterError>,
    b: Result<PerimeterKm, WatershedPerimeterError>,
) where M: Fn(&Vec<Coord>) -> Scalar, K: Fn(Scalar) -> Scalar
    requires
        measures_vertices(ring_metres),
        converts_uniquely(to_km),
        solid@.exterior == holed@.exterior,
        is_perimeter_of(ring_metres, to_km, solid, a),
        is_perimeter_of(ring_metres, to_km, holed, b),
    ensures
        a == b,
{
    let m = choose|m: Scalar| #[trigger]
        call_ensures(ring_metres, (&solid.exterior,), m) && is_perimeter(to_km, m, a);
    let n = choose|n: Scalar| #[trigger]
        call_ensures(ring_metres, (&holed.exterior,), n) && is_perimeter(to_km, n, b);
    assert(m == n);
}

/// Nor do they count towards the perimeter of many polygons.
pub proof fn law_holes_do_not_count_in_many<M, T, K>(
    ring_metres: M,
    total: T,
    to_km: K,
    solid: Seq<Polygon>,
    holed: Seq<Polygon>,
    result: Result<PerimeterKm, WatershedPerimeterError>,
) where
    M: Fn(&Vec<Coord>) -> Scalar,
    T: Fn(&Vec<Scalar>) -> Scalar,
    K: Fn(Scalar) -> Scalar,

    requires
        solid.len() == holed.len(),
        forall|i: int|
            0 <= i < solid.len() ==> (#[trigger] solid[i]).exterior == holed[i].exterior,
    ensures
        is_perimeter_of_all(ring_metres, total, to_km, solid, result) <==> is_perimeter_of_all(
            ring_metres,
            total,
            to_km,
            holed,
            result,
        ),
{
    assert forall|parts: Seq<Scalar>| #[trigger]
        are_exteriors(ring_metres, solid, parts) <==> are_exteriors(ring_metres, holed, parts) by {
        if are_exteriors(ring_metres, solid, parts) {
            assert forall|i: int| 0 <= i < holed.len() implies call_ensures(
                ring_metres,
                (&holed[i].exterior,),
                #[trigger] parts[i],
            ) by {
                assert(solid[i].exterior == holed[i].exterior);
            }
        }
        if are_exteriors(ring_metres, holed, parts) {
            assert forall|i: int| 0 <= i < solid.len() implies call_ensures(
                ring_metres,
                (&solid[i].exterior,),
                #[trigger] parts[i],
            ) by {
                assert(solid[i].exterior == holed[i].exterior);
            }
        }
    }
    if is_perimeter_of_all(ring_metres, total, to_km, holed, result) && holed.len() > 0 {
        let (parts, m) = choose|parts: Vec<Scalar>, m: Scalar|
            {
                &&& are_exteriors(ring_metres, holed, parts@)
                &&& #[trigger] call_ensures(total, (&parts,), m)
                &&& is_perimeter(to_km, m, result)
            };
        assert(are_exteriors(ring_metres, solid, parts@));
    }
}

/// Something that is no line never counts as a reach without length.
pub proof fn law_only_lines_have_a_length<M, K>(
    metres: M,
    to_km: K,
    reach: &Geometry,
    result: Result<ChannelLengthKm, ChannelLengthError>,
) where M: Fn(&Geometry) -> Scalar, K: Fn(Scalar) -> Scalar
    requires
        is_channel_length(metres, to_km, reach, result),
    ensures
        result is Ok ==> !(reach@ is Other),
        reach@ is Other ==> result is Err,
{
}

// ---- what is added, and what is measured ----

/// No lengths add up to no length, and one more length is added to the sum of those
/// before it.
pub proof fn law_lengths_are_added_one_by_one<A>(
    plus: A,
    lengths: Seq<ChannelLengthKm>,
    length: ChannelLengthKm,
    total: ChannelLengthKm,
) where A: Fn(ChannelLengthKm, ChannelLengthKm) -> ChannelLengthKm
    ensures
        is_sum(plus, Seq::empty(), total) <==> total.km == (Scalar { bits: 0 }),
        is_sum(plus, lengths.push(length), total) <==> exists|before: ChannelLengthKm|
            is_sum(plus, lengths, before) && #[trigger] call_ensures(
                plus,
                (before, length),
                total,
            ),
{
    let none = Seq::<ChannelLengthKm>::empty();
    if total.km == (Scalar { bits: 0 }) {
        assert(are_partial_sums(plus, none, seq![no_length()]));
        assert(total == no_length());
    }
    let more = lengths.push(length);
    let n = lengths.len() as int;
    if is_sum(plus, more, total) {
        let sums = choose|sums: Seq<ChannelLengthKm>| #[trigger]
            are_partial_sums(plus, more, sums) && total == sums.last();
        let before = sums.drop_last();
        assert forall|i: int| 0 <= i < lengths.len() implies call_ensures(
            plus,
            (before[i], #[trigger] lengths[i]),
            before[i + 1],
        ) by {
            assert(more[i] == lengths[i]);
        }
        assert(are_partial_sums(plus, lengths, before));
        assert(more[n] == length);
        assert(call_ensures(plus, (sums[n], more[n]), sums[n + 1]));
        assert(is_sum(plus, lengths, sums[n]));
    }
    if exists|before: ChannelLengthKm|
        is_sum(plus, lengths, before) && #[trigger] call_ensures(plus, (before, length), total) {
        let before = choose|before: ChannelLengthKm|
            is_sum(plus, lengths, before) && #[trigger] call_ensures(plus, (before, length), total);
        let sums = choose|sums: Seq<ChannelLengthKm>| #[trigger]
            are_partial_sums(plus, lengths, sums) && before == sums.last();
        let all = sums.push(total);
        assert forall|i: int| 0 <= i < more.len() implies call_ensures(
            plus,
            (all[i], #[trigger] more[i]),
            all[i + 1],
        ) by {
            if i < n {
                assert(more[i] == lengths[i]);
            }
        }
        assert(are_partial_sums(plus, more, all));
    }
}

/// Where reaches measure what `metres_of` says and metres convert as `km_of` says, a
/// reach of lines has that length in kilometres if it is finite, and the measure
/// itself as an error otherwise. Anything else has no length.
pub proof fn law_channel_length_is_the_measure<M, K>(
    metres: M,
    to_km: K,
    metres_of: spec_fn(Geometry) -> Scalar,
    km_of: spec_fn(Scalar) -> Scalar,
    reach: Geometry,
    result: Result<ChannelLengthKm, ChannelLengthError>,
) where M: Fn(&Geometry) -> Scalar, K: Fn(Scalar) -> Scalar
    requires
        forall|g: Geometry, m: Scalar| #[trigger]
            call_ensures(metres, (&g,), m) ==> m == metres_of(g),
        forall|m: Scalar, k: Scalar| #[trigger] call_ensures(to_km, (m,), k) ==> k == km_of(m),
        is_channel_length(metres, to_km, &reach, result),
    ensures
        match reach {
            Geometry::Other(_) => result matches Err(e) && e is NotLinear,
            _ => if metres_of(reach).finite() {
                result matches Ok(length) && length.km == km_of(metres_of(reach))
            } else {
                result matches Err(ChannelLengthError::NonFiniteLength { raw_m }) && raw_m
                    == metres_of(reach)
            },
        },
{
}

/// Where rings measure what `metres_of` says, parts add up to what `sum` says and
/// metres convert as `km_of` says, polygons have as their perimeter the sum over the
/// exterior ring of every one of them if that is finite, and that sum as an error
/// otherwise.
pub proof fn law_perimeter_is_that_of_every_polygon<M, T, K>(
    ring_metres: M,
    total: T,
    to_km: K,
    metres_of: spec_fn(Seq<Coord>) -> Scalar,
    sum: spec_fn(Seq<Scalar>) -> Scalar,
    km_of: spec_fn(Scalar) -> Scalar,
    polygons: Seq<Polygon>,
    result: Result<PerimeterKm, WatershedPerimeterError>,
) where
    M: Fn(&Vec<Coord>) -> Scalar,
    T: Fn(&Vec<Scalar>) -> Scalar,
    K: Fn(Scalar) -> Scalar,

    requires
        forall|ring: Vec<Coord>, m: Scalar| #[trigger]
            call_ensures(ring_metres, (&ring,), m) ==> m == metres_of(ring@),
        forall|parts: Vec<Scalar>, m: Scalar| #[trigger]
            call_ensures(total, (&parts,), m) ==> m == sum(parts@),
        forall|m: Scalar, k: Scalar| #[trigger] call_ensures(to_km, (m,), k) ==> k == km_of(m),
        polygons.len() > 0,
        is_perimeter_of_all(ring_metres, total, to_km, polygons, result),
    ensures
        ({
            let m = sum(
                Seq::new(polygons.len(), |i: int| metres_of(polygons[i].exterior@)),
            );
            if m.finite() {
                result matches Ok(perimeter) && perimeter.km == km_of(m)
            } else {
                result matches Err(WatershedPerimeterError::NonFinitePerimeter { raw_m }) && raw_m
                    == m
            }
        }),
{
    let (parts, m) = choose|parts: Vec<Scalar>, m: Scalar|
        {
            &&& are_exteriors(ring_metres, polygons, parts@)
            &&& #[trigger] call_ensures(total, (&parts,), m)
            &&& is_perimeter(to_km, m, result)
        };
    assert(parts@ =~= Seq::new(polygons.len(), |i: int| metres_of(polygons[i].exterior@)));
}

/// The perimeter of one polygon is the measure of its exterior ring.
pub proof fn law_perimeter_is_that_of_the_exterior<M, K>(
    ring_metres: M,
    to_km: K,
    metres_of: spec_fn(Seq<Coord>) -> Scalar,
    km_of: spec_fn(Scalar) -> Scalar,
    polygon: Polygon,
    result: Result<PerimeterKm, WatershedPerimeterError>,
) where M: Fn(&Vec<Coord>) -> Scalar, K: Fn(Scalar) -> Scalar
    requires
        forall|ring: Vec<Coord>, m: Scalar| #[trigger]
            call_ensures(ring_metres, (&ring,), m) ==> m == metres_of(ring@),
        forall|m: Scalar, k: Scalar| #[trigger] call_ensures(to_km, (m,), k) ==> k == km_of(m),
        is_perimeter_of(ring_metres, to_km, polygon, result),
    ensures
        ({
            let m = metres_of(polygon.exterior@);
            if m.finite() {
                result matches Ok(perimeter) && perimeter.km == km_of(m)
            } else {
                result matches Err(WatershedPerimeterError::NonFinitePerimeter { raw_m }) && raw_m
                    == m
            }
        }),
{
}

/// A number is written between what stands before and after it.
pub proof fn law_number_is_written_in_place<N>(
    number: N,
    text_of: spec_fn(Scalar) -> Seq<char>,
    before: Seq<char>,
    value: Scalar,
    after: Seq<char>,
    result: Seq<char>,
) where N: Fn(Scalar) -> String
    requires
        forall|s: Scalar, t: String| #[trigger] call_ensures(number, (s,), t) ==> t@ == text_of(s),
        is_written(number, before, value, after, result),
    ensures
        result == before + text_of(value) + after,
{
}

} // verus!
