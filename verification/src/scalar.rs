//! Measured numbers, held as bit patterns.
//!
//! Every coordinate, distance and length that passes through the library is an
//! IEEE 754 binary64 number. The library never computes with such numbers: it
//! asks which of two is smaller, whether two are equal and whether one is
//! finite. A [`Scalar`] therefore keeps the bit pattern, and this module gives
//! the order of the numbers that the patterns stand for.
use std::cmp::Ordering;
use vstd::arithmetic::mul::lemma_mul_inequality;
use vstd::arithmetic::mul::lemma_mul_strict_inequality;
use vstd::arithmetic::power2::lemma_pow2_pos;
use vstd::arithmetic::power2::lemma_pow2_strictly_increases;
use vstd::arithmetic::power2::lemma_pow2_unfold;
use vstd::arithmetic::power2::pow2;
use vstd::prelude::*;

verus! {

/// The first bit pattern with the sign bit set.
pub const SIGN_BIT: u64 = 0x8000_0000_0000_0000;

/// The pattern of positive infinity; patterns above it (sign aside) are not numbers.
pub const INFINITY_BITS: u64 = 0x7ff0_0000_0000_0000;

/// The weight of the lowest exponent bit.
pub const EXPONENT_UNIT: u64 = 0x0010_0000_0000_0000;

/// A binary64 number, as its bit pattern.
///
/// Executable comparison is numeric: the two zeros are equal, and a NaN equals
/// nothing and is not ordered.
#[derive(Clone, Copy, Debug)]
pub struct Scalar {
    /// The bit pattern, as `to_bits` gives it.
    pub bits: u64,
}

impl Scalar {
    /// The pattern without its sign bit.
    pub open spec fn magnitude(self) -> int {
        self.bits as int % 0x8000_0000_0000_0000
    }

    pub open spec fn negative(self) -> bool {
        self.bits >= SIGN_BIT
    }

    /// The pattern stands for a number: it is no NaN.
    pub open spec fn is_number(self) -> bool {
        self.magnitude() <= INFINITY_BITS
    }

    pub open spec fn finite(self) -> bool {
        self.magnitude() < INFINITY_BITS
    }

    /// The number that the pattern stands for, counted in units of `2^-1074`.
    ///
    /// Every finite binary64 number is a whole number of these units. The same
    /// reading puts the infinities beyond every finite number.
    pub open spec fn units(self) -> int {
        if self.negative() {
            -magnitude_units(self.magnitude())
        } else {
            magnitude_units(self.magnitude())
        }
    }

    /// Numeric `self < other`: false when either side is no number.
    pub open spec fn less(self, other: Self) -> bool {
        self.is_number() && other.is_number() && self.units() < other.units()
    }

    /// Numeric `self <= other`: false when either side is no number.
    pub open spec fn at_most(self, other: Self) -> bool {
        self.is_number() && other.is_number() && self.units() <= other.units()
    }

    /// Numeric `self == other`: false when either side is no number.
    pub open spec fn equal(self, other: Self) -> bool {
        self.is_number() && other.is_number() && self.units() == other.units()
    }

    /// How two numbers are ordered; not at all when either side is no number.
    pub open spec fn ordered(self, other: Self) -> Option<Ordering> {
        if self.equal(other) {
            Some(Ordering::Equal)
        } else if self.less(other) {
            Some(Ordering::Less)
        } else if other.less(self) {
            Some(Ordering::Greater)
        } else {
            None
        }
    }

    /// The smaller of two numbers; the other one when one side is no number.
    pub open spec fn smaller(self, other: Self) -> Self {
        if !self.is_number() || other.less(self) {
            other
        } else {
            self
        }
    }

    /// The larger of two numbers; the other one when one side is no number.
    pub open spec fn larger(self, other: Self) -> Self {
        if !self.is_number() || self.less(other) {
            other
        } else {
            self
        }
    }
}

impl PartialEq for Scalar {
    fn eq(&self, other: &Self) -> (r: bool) {
        self.equals(*other)
    }
}

impl vstd::std_specs::cmp::PartialEqSpecImpl for Scalar {
    open spec fn obeys_eq_spec() -> bool {
        true
    }

    open spec fn eq_spec(&self, other: &Self) -> bool {
        self.equal(*other)
    }
}

impl PartialOrd for Scalar {
    fn partial_cmp(&self, other: &Self) -> (r: Option<Ordering>) {
        if self.equals(*other) {
            Some(Ordering::Equal)
        } else if Scalar::lt(*self, *other) {
            Some(Ordering::Less)
        } else if Scalar::lt(*other, *self) {
            Some(Ordering::Greater)
        } else {
            None
        }
    }
}

impl vstd::std_specs::cmp::PartialOrdSpecImpl for Scalar {
    open spec fn obeys_partial_cmp_spec() -> bool {
        true
    }

    open spec fn partial_cmp_spec(&self, other: &Self) -> Option<Ordering> {
        self.ordered(*other)
    }
}

/// The value of a pattern without sign, in units of `2^-1074`.
pub open spec fn magnitude_units(magnitude: int) -> int {
    let exponent = magnitude / EXPONENT_UNIT as int;
    let fraction = magnitude % EXPONENT_UNIT as int;
    if exponent == 0 {
        fraction
    } else {
        (EXPONENT_UNIT + fraction) * pow2((exponent - 1) as nat)
    }
}

/// The place of a pattern in the order of all patterns that stand for numbers.
spec fn rank(s: Scalar) -> int {
    if s.negative() {
        -s.magnitude()
    } else {
        s.magnitude()
    }
}

proof fn lemma_pow2_monotone(a: nat, b: nat)
    requires
        a <= b,
    ensures
        pow2(a) <= pow2(b),
{
    if a < b {
        lemma_pow2_strictly_increases(a, b);
    }
}

/// A larger pattern (sign aside) stands for a larger number.
proof fn lemma_magnitude_units_increase(a: int, b: int)
    requires
        0 <= a < b,
    ensures
        magnitude_units(a) < magnitude_units(b),
{
    let unit = EXPONENT_UNIT as int;
    let ea = a / unit;
    let fa = a % unit;
    let eb = b / unit;
    let fb = b % unit;
    assert(ea <= eb);
    if ea == eb {
        assert(fa < fb);
        if ea > 0 {
            lemma_pow2_pos((ea - 1) as nat);
            lemma_mul_strict_inequality(unit + fa, unit + fb, pow2((ea - 1) as nat) as int);
        }
    } else {
        lemma_pow2_pos((eb - 1) as nat);
        let pb = pow2((eb - 1) as nat) as int;
        lemma_mul_inequality(unit, unit + fb, pb);
        assert(unit * pb <= magnitude_units(b));
        if ea == 0 {
            lemma_mul_inequality(1, pb, unit);
            assert(unit <= unit * pb) by (nonlinear_arith)
                requires
                    unit > 0,
                    pb >= 1,
            ;
        } else {
            let pa = pow2((ea - 1) as nat) as int;
            lemma_pow2_pos((ea - 1) as nat);
            lemma_mul_strict_inequality(unit + fa, 2 * unit, pa);
            lemma_pow2_unfold(ea as nat);
            assert((2 * unit) * pa == unit * (2 * pa)) by (nonlinear_arith);
            lemma_pow2_monotone(ea as nat, (eb - 1) as nat);
            assert(unit * (2 * pa) <= unit * pb) by (nonlinear_arith)
                requires
                    unit > 0,
                    2 * pa <= pb,
            ;
        }
    }
}

/// The order of ranks is the order of the numbers.
proof fn lemma_rank_order(a: Scalar, b: Scalar)
    ensures
        rank(a) < rank(b) <==> a.units() < b.units(),
        rank(a) == rank(b) <==> a.units() == b.units(),
{
    assert(magnitude_units(0) == 0);
    let ma = a.magnitude();
    let mb = b.magnitude();
    if ma > 0 {
        lemma_magnitude_units_increase(0, ma);
    }
    if mb > 0 {
        lemma_magnitude_units_increase(0, mb);
    }
    if ma < mb {
        lemma_magnitude_units_increase(ma, mb);
    } else if mb < ma {
        lemma_magnitude_units_increase(mb, ma);
    }
}

/// Of two numbers exactly one of "less", "equal" and "greater" holds, and a
/// pattern that is no number compares with nothing.
pub proof fn law_order_is_total(a: Scalar, b: Scalar)
    ensures
        a.is_number() && b.is_number() ==> (a.less(b) || a.equal(b) || b.less(a)),
        !(a.less(b) && a.equal(b)),
        !(a.less(b) && b.less(a)),
        !(a.equal(b) && b.less(a)),
        !a.is_number() ==> !a.less(b) && !a.equal(b) && !b.less(a) && !a.at_most(b) && !b.at_most(a),
{
}

/// Two patterns stand for the same number only if they are the same pattern or
/// the two zeros.
pub proof fn law_equal_numbers(a: Scalar, b: Scalar)
    requires
        a.equal(b),
    ensures
        a == b || (a.magnitude() == 0 && b.magnitude() == 0),
{
    lemma_rank_order(a, b);
}

/// The numbers without a sign are ordered as their patterns are.
pub proof fn law_unsigned_order(a: Scalar, b: Scalar)
    requires
        a.is_number() && !a.negative(),
        b.is_number() && !b.negative(),
    ensures
        a.less(b) <==> a.bits < b.bits,
{
    lemma_rank_order(a, b);
}

/// Positive infinity is at least every number and above every finite one.
pub proof fn law_infinity_is_greatest(a: Scalar)
    requires
        a.is_number(),
    ensures
        a.at_most(Scalar { bits: INFINITY_BITS }),
        a.finite() ==> a.less(Scalar { bits: INFINITY_BITS }),
{
    lemma_rank_order(a, Scalar { bits: INFINITY_BITS });
}

impl Scalar {
    /// The number whose bit pattern is `bits`.
    pub fn from_bits(bits: u64) -> (r: Self)
        ensures
            r.bits == bits,
    {
        Scalar { bits }
    }

    pub fn zero() -> (r: Self)
        ensures
            r.bits == 0,
            r.units() == 0,
            r.finite(),
    {
        Scalar { bits: 0 }
    }

    pub fn infinity() -> (r: Self)
        ensures
            r.bits == INFINITY_BITS,
            r.is_number(),
            !r.finite(),
    {
        Scalar { bits: INFINITY_BITS }
    }

    fn unsigned(self) -> (r: u64)
        ensures
            r == self.magnitude(),
    {
        if self.bits >= SIGN_BIT {
            self.bits - SIGN_BIT
        } else {
            self.bits
        }
    }

    fn signed(self) -> (r: i64)
        ensures
            r == rank(self),
    {
        if self.bits >= SIGN_BIT {
            -(self.unsigned() as i64)
        } else {
            self.bits as i64
        }
    }

    pub fn is_nan(self) -> (r: bool)
        ensures
            r == !self.is_number(),
    {
        self.unsigned() > INFINITY_BITS
    }

    pub fn is_finite(self) -> (r: bool)
        ensures
            r == self.finite(),
    {
        self.unsigned() < INFINITY_BITS
    }

    /// Numeric `<`.
    pub fn lt(self, other: Self) -> (r: bool)
        ensures
            r == self.less(other),
    {
        proof {
            lemma_rank_order(self, other);
        }
        !self.is_nan() && !other.is_nan() && self.signed() < other.signed()
    }

    /// Numeric `<=`.
    pub fn le(self, other: Self) -> (r: bool)
        ensures
            r == self.at_most(other),
    {
        proof {
            lemma_rank_order(self, other);
        }
        !self.is_nan() && !other.is_nan() && self.signed() <= other.signed()
    }

    /// Numeric `==`.
    pub fn equals(self, other: Self) -> (r: bool)
        ensures
            r == self.equal(other),
    {
        proof {
            lemma_rank_order(self, other);
        }
        !self.is_nan() && !other.is_nan() && self.signed() == other.signed()
    }

    /// The smaller of two numbers, ignoring a side that is no number.
    pub fn min(self, other: Self) -> (r: Self)
        ensures
            r == self.smaller(other),
    {
        if self.is_nan() || other.lt(self) {
            other
        } else {
            self
        }
    }

    /// The larger of two numbers, ignoring a side that is no number.
    pub fn max(self, other: Self) -> (r: Self)
        ensures
            r == self.larger(other),
    {
        if self.is_nan() || self.lt(other) {
            other
        } else {
            self
        }
    }
}

/// Which patterns are numbers, and how numbers are ordered, read off the patterns:
/// among numbers without sign the larger pattern is the larger number, among
/// numbers with sign the smaller one, and a number with sign is below one without,
/// except for the two zeros.
pub proof fn law_order_of_patterns(a: Scalar, b: Scalar)
    ensures
        a.is_number() <==> (a.bits <= 0x7ff0_0000_0000_0000 || 0x8000_0000_0000_0000 <= a.bits
            <= 0xfff0_0000_0000_0000),
        a.finite() <==> (a.bits < 0x7ff0_0000_0000_0000 || 0x8000_0000_0000_0000 <= a.bits
            < 0xfff0_0000_0000_0000),
        a.is_number() && b.is_number() ==> (a.less(b) <==> if a.bits < 0x8000_0000_0000_0000 {
            b.bits < 0x8000_0000_0000_0000 && a.bits < b.bits
        } else if b.bits < 0x8000_0000_0000_0000 {
            !(a.bits == 0x8000_0000_0000_0000 && b.bits == 0)
        } else {
            b.bits < a.bits
        }),
        a.at_most(b) <==> a.less(b) || a.equal(b),
        a.is_number() && b.is_number() ==> (a.equal(b) <==> !a.less(b) && !b.less(a)),
{
    lemma_rank_order(a, b);
    lemma_rank_order(b, a);
}

/// Of two values the smaller and the larger one are the values themselves, neither
/// is beyond a number among them, and one that is no number is passed over.
pub proof fn law_smaller_and_larger(a: Scalar, b: Scalar)
    ensures
        a.smaller(b) == a || a.smaller(b) == b,
        a.larger(b) == a || a.larger(b) == b,
        a.is_number() ==> a.smaller(b).at_most(a) && a.at_most(a.larger(b)),
        b.is_number() ==> a.smaller(b).at_most(b) && b.at_most(a.larger(b)),
{
}

} // verus!
