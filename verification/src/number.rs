//! Real numbers in the binary interchange format that timings are measured in.
//!
//! A [`Real`] is the bit pattern of a 64-bit IEEE 754 number: one sign bit, eleven exponent bits
//! and fifty-two fraction bits. The library orders, selects and classifies such numbers; their
//! sums, quotients and logarithms come from the caller.

use vstd::arithmetic::power2::{lemma_pow2_adds, lemma_pow2_pos, lemma_pow2_strictly_increases, pow2};
use vstd::prelude::*;

verus! {

/// The bit that is set in negative numbers.
pub const SIGN_BIT: u64 = 0x8000_0000_0000_0000;

/// The magnitude of the infinities; every larger magnitude is that of a NaN.
pub const INFINITE_MAGNITUDE: u64 = 0x7ff0_0000_0000_0000;

/// The bit pattern of the NaN that stands for a missing value.
pub const NAN_BITS: u64 = 0x7ff8_0000_0000_0000;

/// One more than the largest fraction.
pub const FRACTION_SPAN: u64 = 0x0010_0000_0000_0000;

/// A 64-bit IEEE 754 number, held as its bit pattern. The operator `==` compares bit patterns;
/// [`Real::same_value`] compares values.
#[derive(Clone, Copy, Debug, PartialEq, Eq, Structural)]
pub struct Real {
    pub bits: u64,
}

/// A duration in seconds.
pub type Second = Real;

/// The bit pattern of one.
pub const ONE_BITS: u64 = 0x3ff0_0000_0000_0000;

/// The number zero.
pub open spec fn zero() -> Real {
    Real { bits: 0 }
}

/// The number one.
pub open spec fn one() -> Real {
    Real { bits: ONE_BITS }
}

impl Real {
    /// Whether the sign bit is set.
    pub open spec fn is_negative(self) -> bool {
        self.bits >= SIGN_BIT
    }

    /// The bit pattern without its sign bit.
    pub open spec fn magnitude(self) -> int {
        if self.is_negative() {
            self.bits - SIGN_BIT
        } else {
            self.bits as int
        }
    }

    /// The place of this number in the order of all numbers. Both zeros have rank zero.
    pub open spec fn rank(self) -> int {
        if self.is_negative() {
            -self.magnitude()
        } else {
            self.magnitude()
        }
    }

    /// Whether this bit pattern is no number at all.
    pub open spec fn nan(self) -> bool {
        self.magnitude() > INFINITE_MAGNITUDE
    }

    /// The order of IEEE 754: a NaN is neither below nor above anything.
    pub open spec fn lt(self, other: Real) -> bool {
        !self.nan() && !other.nan() && self.rank() < other.rank()
    }

    /// The non-strict order of IEEE 754.
    pub open spec fn le(self, other: Real) -> bool {
        !self.nan() && !other.nan() && self.rank() <= other.rank()
    }

    /// The equality of IEEE 754: the zeros are equal, and a NaN equals nothing.
    pub open spec fn same(self, other: Real) -> bool {
        !self.nan() && !other.nan() && self.rank() == other.rank()
    }

    /// This number without its sign.
    pub open spec fn unsigned(self) -> Real {
        Real { bits: self.magnitude() as u64 }
    }

    /// Whether this number is above zero.
    pub open spec fn positive(self) -> bool {
        !self.nan() && self.rank() > 0
    }

    /// Whether this is a number other than the infinities.
    pub open spec fn finite(self) -> bool {
        self.magnitude() < INFINITE_MAGNITUDE
    }

    /// The absolute value in units of the smallest positive number, for finite numbers.
    pub open spec fn scaled_magnitude(self) -> int {
        let exponent = self.magnitude() / (FRACTION_SPAN as int);
        let fraction = self.magnitude() % (FRACTION_SPAN as int);
        if exponent == 0 {
            fraction
        } else {
            (FRACTION_SPAN + fraction) * pow2((exponent - 1) as nat)
        }
    }

    /// The value in units of the smallest positive number, for finite numbers.
    pub open spec fn scaled_value(self) -> int {
        if self.is_negative() {
            -self.scaled_magnitude()
        } else {
            self.scaled_magnitude()
        }
    }

    /// The number with the given bit pattern.
    pub fn from_bits(bits: u64) -> (r: Real)
        ensures
            r.bits == bits,
    {
        Real { bits }
    }

    /// The number zero.
    pub fn zero() -> (r: Real)
        ensures
            r.bits == 0,
            r.rank() == 0,
            !r.nan(),
    {
        Real { bits: 0 }
    }

    /// The value that stands for a missing number.
    pub fn not_a_number() -> (r: Real)
        ensures
            r.bits == NAN_BITS,
            r.nan(),
    {
        Real { bits: NAN_BITS }
    }

    /// Whether this is a NaN.
    pub fn is_nan(&self) -> (r: bool)
        ensures
            r == self.nan(),
    {
        let magnitude: u64 = if self.bits >= SIGN_BIT { self.bits - SIGN_BIT } else { self.bits };
        magnitude > INFINITE_MAGNITUDE
    }

    /// This number without its sign.
    pub fn abs(&self) -> (r: Real)
        ensures
            r == self.unsigned(),
            r.nan() == self.nan(),
            r.rank() == self.magnitude(),
    {
        if self.bits >= SIGN_BIT {
            Real { bits: self.bits - SIGN_BIT }
        } else {
            *self
        }
    }

    /// Whether this number ranks before the other, NaNs ranking beyond the infinities of their sign.
    pub fn ranks_before(&self, other: &Real) -> (r: bool)
        ensures
            r == (self.rank() < other.rank()),
    {
        if self.bits >= SIGN_BIT {
            if other.bits >= SIGN_BIT {
                self.bits > other.bits
            } else {
                self.bits > SIGN_BIT || other.bits > 0
            }
        } else {
            other.bits < SIGN_BIT && self.bits < other.bits
        }
    }

    /// Whether this number is less than the other.
    pub fn less_than(&self, other: &Real) -> (r: bool)
        ensures
            r == self.lt(*other),
    {
        !self.is_nan() && !other.is_nan() && self.ranks_before(other)
    }

    /// Whether the two numbers have the same value.
    pub fn same_value(&self, other: &Real) -> (r: bool)
        ensures
            r == self.same(*other),
    {
        !self.is_nan() && !other.is_nan() && !self.ranks_before(other) && !other.ranks_before(self)
    }
}

/// The next larger exponent makes up for any fraction.
proof fn lemma_scaled_step(exponent: nat, low: int, high: int)
    requires
        0 <= low < FRACTION_SPAN,
        0 <= high < FRACTION_SPAN,
    ensures
        (FRACTION_SPAN + low) * pow2(exponent) < (FRACTION_SPAN + high) * pow2(exponent + 1),
{
    lemma_pow2_pos(exponent);
    lemma_pow2_adds(exponent, 1);
    assert(pow2(1) == 2) by {
        vstd::arithmetic::power2::lemma2_to64();
    }
    let p = pow2(exponent) as int;
    assert((FRACTION_SPAN + low) * p < (FRACTION_SPAN + high) * (p * 2)) by (nonlinear_arith)
        requires
            p > 0,
            0 <= low < FRACTION_SPAN,
            0 <= high < FRACTION_SPAN,
    ;
}

/// Between finite numbers, the larger magnitude belongs to the larger absolute value.
proof fn lemma_magnitude_orders(a: Real, b: Real)
    requires
        a.finite(),
        b.finite(),
        a.magnitude() < b.magnitude(),
    ensures
        0 <= a.scaled_magnitude() < b.scaled_magnitude(),
{
    let span = FRACTION_SPAN as int;
    let ea = a.magnitude() / span;
    let fa = a.magnitude() % span;
    let eb = b.magnitude() / span;
    let fb = b.magnitude() % span;
    assert(0 <= ea <= eb);
    if ea > 0 {
        lemma_pow2_pos((ea - 1) as nat);
        assert(0 <= (span + fa) * pow2((ea - 1) as nat)) by (nonlinear_arith)
            requires
                span > 0,
                fa >= 0,
                pow2((ea - 1) as nat) > 0,
        ;
    }
    if ea == eb {
        assert(fa < fb);
        if ea > 0 {
            assert((span + fa) * pow2((ea - 1) as nat) < (span + fb) * pow2((ea - 1) as nat))
                by (nonlinear_arith)
                requires
                    fa < fb,
                    pow2((ea - 1) as nat) > 0,
            ;
        }
    } else if ea == 0 {
        lemma_pow2_pos((eb - 1) as nat);
        assert(span <= (span + fb) * pow2((eb - 1) as nat)) by (nonlinear_arith)
            requires
                span > 0,
                fb >= 0,
                pow2((eb - 1) as nat) >= 1,
        ;
    } else {
        lemma_scaled_step((ea - 1) as nat, fa, fb);
        if ea + 1 < eb {
            lemma_pow2_strictly_increases(ea as nat, (eb - 1) as nat);
            assert((span + fb) * pow2(ea as nat) < (span + fb) * pow2((eb - 1) as nat))
                by (nonlinear_arith)
                requires
                    span > 0,
                    fb >= 0,
                    pow2(ea as nat) < pow2((eb - 1) as nat),
            ;
        }
    }
}

/// The order of bit patterns is the order of the values they stand for.
pub proof fn order_is_numeric(a: Real, b: Real)
    requires
        a.finite(),
        b.finite(),
    ensures
        a.lt(b) <==> a.scaled_value() < b.scaled_value(),
        a.same(b) <==> a.scaled_value() == b.scaled_value(),
{
    if a.magnitude() < b.magnitude() {
        lemma_magnitude_orders(a, b);
    } else if b.magnitude() < a.magnitude() {
        lemma_magnitude_orders(b, a);
    }
    let zero = Real { bits: 0 };
    assert(zero.scaled_magnitude() == 0);
    if a.magnitude() > 0 {
        lemma_magnitude_orders(zero, a);
    }
    if b.magnitude() > 0 {
        lemma_magnitude_orders(zero, b);
    }
}

/// A number and its negation have the same absolute value, which is the larger of the two.
pub proof fn unsigned_forgets_the_sign(a: Real)
    ensures
        a.unsigned().nan() == a.nan(),
        a.unsigned().rank() >= 0,
        a.rank() >= 0 ==> a.unsigned().rank() == a.rank(),
        a.rank() <= 0 ==> a.unsigned().rank() == -a.rank(),
        a.unsigned().bits < SIGN_BIT,
        a.bits < SIGN_BIT ==> a.unsigned() == a,
        a.bits >= SIGN_BIT ==> a.unsigned().bits + SIGN_BIT == a.bits,
{
}

/// Of two numbers, one is below the other or they are the same. A NaN is not to be compared with
/// anything, not even with itself.
pub proof fn numbers_are_ordered(a: Real, b: Real)
    ensures
        a.le(b) <==> a.lt(b) || a.same(b),
        !a.nan() && !b.nan() ==> a.lt(b) || a.same(b) || b.lt(a),
        a.nan() || b.nan() ==> !a.lt(b) && !a.same(b) && !a.le(b),
        !(a.lt(b) && b.lt(a)),
        !(a.lt(b) && a.same(b)),
        a.same(b) <==> b.same(a),
        a.positive() <==> zero().lt(a),
        a.same(zero()) <==> a.bits == 0 || a.bits == SIGN_BIT,
        !a.nan() ==> a.same(a),
{
}

/// Every finite number lies strictly between the two infinities, and these are numbers too. What is
/// beyond them is no number.
pub proof fn infinities_bound_the_numbers(a: Real)
    ensures
        ({
            let above = Real { bits: 0x7ff0_0000_0000_0000 };
            let below = Real { bits: 0xfff0_0000_0000_0000 };
            &&& !above.nan() && !below.nan() && !above.finite() && !below.finite()
            &&& a.finite() <==> below.lt(a) && a.lt(above)
            &&& !a.nan() <==> below.le(a) && a.le(above)
            &&& !a.nan() <==> a.same(a)
        }),
{
}

} // verus!
