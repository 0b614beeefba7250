//! Double-precision numbers, held by their bit patterns.
//!
//! A pattern is read as the IEEE 754 binary64 format lays it out: a sign bit, eleven exponent bits,
//! fifty-two fraction bits. What is decided here is how such numbers compare and what whole number
//! they truncate to; [`crate::arith`] computes with them.

use vstd::arithmetic::div_mod::*;
use vstd::arithmetic::power2::*;
use vstd::bits::*;
use vstd::prelude::*;

verus! {

/// A double-precision number.
#[derive(Clone, Copy, Debug, PartialEq, Eq, Structural)]
pub struct Double {
    pub bits: u64,
}

/// One more than the greatest fraction.
pub const FRACTION_RANGE: u64 = 0x10_0000_0000_0000;

/// One more than the greatest pattern without a sign bit.
pub const SIGN_BIT: u64 = 0x8000_0000_0000_0000;

/// The pattern of positive infinity; what lies above it, below the sign bit, is not a number.
pub const INFINITY_BITS: u64 = 0x7ff0_0000_0000_0000;

/// The pattern of one.
pub const ONE_BITS: u64 = 0x3ff0_0000_0000_0000;

/// The distance between one and zero, in units of the smallest positive number.
pub open spec fn unit() -> nat {
    pow2(1074)
}

/// What the pattern `m`, which has no sign bit, stands for, in units of the smallest positive
/// number. For infinity this is a value above that of every finite number.
pub open spec fn magnitude_value(m: nat) -> nat {
    let exponent = m / FRACTION_RANGE as nat;
    let fraction = m % FRACTION_RANGE as nat;
    if exponent == 0 {
        fraction
    } else {
        (FRACTION_RANGE as nat + fraction) * pow2((exponent - 1) as nat)
    }
}

impl Double {
    pub open spec fn magnitude(self) -> nat {
        self.bits as nat % SIGN_BIT as nat
    }

    pub open spec fn negative_sign(self) -> bool {
        self.bits >= SIGN_BIT
    }

    pub open spec fn spec_is_nan(self) -> bool {
        self.magnitude() > INFINITY_BITS
    }

    pub open spec fn spec_is_finite(self) -> bool {
        self.magnitude() < INFINITY_BITS
    }

    /// The number, in units of the smallest positive one.
    pub open spec fn value(self) -> int {
        if self.negative_sign() {
            -(magnitude_value(self.magnitude()) as int)
        } else {
            magnitude_value(self.magnitude()) as int
        }
    }

    /// `self < other`, which no comparison with a NaN is.
    pub open spec fn below(self, other: Double) -> bool {
        &&& !self.spec_is_nan()
        &&& !other.spec_is_nan()
        &&& self.value() < other.value()
    }

    /// `self <= other`, which no comparison with a NaN is.
    pub open spec fn at_most(self, other: Double) -> bool {
        &&& !self.spec_is_nan()
        &&& !other.spec_is_nan()
        &&& self.value() <= other.value()
    }

    /// The number with the given pattern.
    pub fn from_bits(bits: u64) -> (d: Double)
        ensures
            d.bits == bits,
    {
        Double { bits }
    }

    /// The pattern of the number.
    pub fn to_bits(self) -> (bits: u64)
        ensures
            bits == self.bits,
    {
        self.bits
    }

    /// Zero.
    pub fn zero() -> (d: Double)
        ensures
            d.value() == 0,
            !d.spec_is_nan(),
            d.spec_is_finite(),
            d.bits == 0,
    {
        Double { bits: 0 }
    }

    /// One.
    pub fn one() -> (d: Double)
        ensures
            d.value() == unit(),
            !d.spec_is_nan(),
            d.spec_is_finite(),
            d.bits == ONE_BITS,
    {
        proof {
            lemma_pow2_adds(52, 1022);
            lemma2_to64_rest();
        }
        Double { bits: ONE_BITS }
    }

    /// Positive infinity.
    pub fn infinity() -> (d: Double)
        ensures
            d.bits == INFINITY_BITS,
            !d.spec_is_nan(),
            !d.negative_sign(),
    {
        Double { bits: INFINITY_BITS }
    }

    pub(crate) fn exec_magnitude(self) -> (m: u64)
        ensures
            m == self.magnitude(),
    {
        self.bits % SIGN_BIT
    }

    /// Whether this is not a number.
    pub fn is_nan(self) -> (b: bool)
        ensures
            b == self.spec_is_nan(),
    {
        self.exec_magnitude() > INFINITY_BITS
    }

    /// Whether this is neither infinite nor not a number.
    pub fn is_finite(self) -> (b: bool)
        ensures
            b == self.spec_is_finite(),
    {
        self.exec_magnitude() < INFINITY_BITS
    }

    /// Whether `self < other`.
    pub fn lt(self, other: Double) -> (b: bool)
        ensures
            b == self.below(other),
    {
        proof {
            lemma_magnitudes_ordered(self.magnitude(), other.magnitude());
            lemma_zero_magnitude(self.magnitude());
            lemma_zero_magnitude(other.magnitude());
        }
        if self.is_nan() || other.is_nan() {
            return false;
        }
        let m: u64 = self.exec_magnitude();
        let n: u64 = other.exec_magnitude();
        let a: bool = self.bits >= SIGN_BIT;
        let b: bool = other.bits >= SIGN_BIT;
        if a && b {
            n < m
        } else if a {
            m > 0 || n > 0
        } else if b {
            false
        } else {
            m < n
        }
    }

    /// Whether `self <= other`.
    pub fn le(self, other: Double) -> (b: bool)
        ensures
            b == self.at_most(other),
    {
        if self.is_nan() || other.is_nan() {
            return false;
        }
        !other.lt(self)
    }

    /// Whether `self > 0`.
    pub fn is_positive(self) -> (b: bool)
        ensures
            b == (!self.spec_is_nan() && self.value() > 0),
    {
        let zero = Double::zero();
        zero.lt(self)
    }

    /// The smaller of two numbers; the other one where one is not a number.
    pub fn min(self, other: Double) -> (d: Double)
        ensures
            d == lesser(self, other),
    {
        if self.is_nan() || other.lt(self) {
            other
        } else {
            self
        }
    }

    /// The greater of two numbers; the other one where one is not a number.
    pub fn max(self, other: Double) -> (d: Double)
        ensures
            d == greater(self, other),
    {
        if self.is_nan() || self.lt(other) {
            other
        } else {
            self
        }
    }
}

/// The smaller of two numbers; the other one where one is not a number.
pub open spec fn lesser(x: Double, y: Double) -> Double {
    if x.spec_is_nan() || y.below(x) {
        y
    } else {
        x
    }
}

/// The greater of two numbers; the other one where one is not a number.
pub open spec fn greater(x: Double, y: Double) -> Double {
    if x.spec_is_nan() || x.below(y) {
        y
    } else {
        x
    }
}

/// The whole number that `d` truncates to, cut off at the bounds of `u64`; zero for a NaN.
pub open spec fn truncated(d: Double) -> int {
    if d.spec_is_nan() || d.value() <= 0 {
        0
    } else if d.value() / unit() as int > u64::MAX {
        u64::MAX as int
    } else {
        d.value() / unit() as int
    }
}

impl Double {
    /// The whole number that this truncates to, cut off at the bounds of `u64`; zero for a NaN.
    pub fn to_u64_saturating(self) -> (n: u64)
        ensures
            n == truncated(self),
    {
        if !self.is_positive() {
            return 0;
        }
        let m: u64 = self.exec_magnitude();
        let exponent: u64 = m / FRACTION_RANGE;
        let significand: u64 = FRACTION_RANGE + m % FRACTION_RANGE;
        proof {
            lemma_truncation(self);
        }
        if exponent < 1023 {
            0
        } else if exponent <= 1075 {
            let shift: u64 = 1075 - exponent;
            proof {
                lemma_u64_shr_is_div(significand, shift);
            }
            significand >> shift
        } else if exponent <= 1086 {
            let shift: u64 = exponent - 1075;
            proof {
                lemma_u64_shl_is_mul(significand, shift);
            }
            significand << shift
        } else {
            u64::MAX
        }
    }
}

/// Where the binary point of a positive number lies, by its exponent bits.
proof fn lemma_truncation(d: Double)
    requires
        !d.spec_is_nan(),
        d.value() > 0,
    ensures
        ({
            let exponent = d.magnitude() / FRACTION_RANGE as nat;
            let significand = FRACTION_RANGE as nat + d.magnitude() % FRACTION_RANGE as nat;
            &&& exponent < 1023 ==> d.value() / unit() as int == 0
            &&& 1023 <= exponent <= 1075 ==> d.value() / unit() as int == significand / pow2(
                (1075 - exponent) as nat,
            )
            &&& 1075 < exponent <= 1086 ==> d.value() / unit() as int == significand * pow2(
                (exponent - 1075) as nat,
            ) <= u64::MAX
            &&& exponent > 1086 ==> d.value() / unit() as int > u64::MAX
        }),
{
    let range = FRACTION_RANGE as nat;
    let exponent = d.magnitude() / range;
    let fraction = d.magnitude() % range;
    let significand = range + fraction;
    lemma2_to64();
    lemma2_to64_rest();
    lemma_pow2_pos(1074);
    if exponent == 0 {
        lemma_pow2_strictly_increases(52, 1074);
        assert(d.value() < unit());
        lemma_basic_div(d.value(), unit() as int);
    } else {
        let p = pow2((exponent - 1) as nat);
        lemma_pow2_pos((exponent - 1) as nat);
        assert(d.value() == significand * p);
        if exponent < 1023 {
            lemma_pow2_adds(53, (exponent - 1) as nat);
            if exponent + 52 < 1074 {
                lemma_pow2_strictly_increases((exponent + 52) as nat, 1074);
            }
            assert(significand * p < pow2(53) * p) by (nonlinear_arith)
                requires
                    significand < pow2(53),
                    p > 0,
            ;
            lemma_basic_div(d.value(), unit() as int);
        } else if exponent <= 1075 {
            let q = pow2((1075 - exponent) as nat);
            lemma_pow2_pos((1075 - exponent) as nat);
            lemma_pow2_adds((exponent - 1) as nat, (1075 - exponent) as nat);
            assert(unit() == p * q);
            lemma_div_denominator((significand * p) as int, p as int, q as int);
            lemma_div_by_multiple(significand as int, p as int);
        } else {
            let q = pow2((exponent - 1075) as nat);
            lemma_pow2_adds(1074, (exponent - 1075) as nat);
            assert(significand * p == (significand * q) * unit()) by (nonlinear_arith)
                requires
                    p == unit() * q,
            ;
            lemma_div_by_multiple((significand * q) as int, unit() as int);
            if exponent <= 1086 {
                if exponent < 1086 {
                    lemma_pow2_strictly_increases((exponent - 1075) as nat, 11);
                }
                assert(significand * q <= (2 * range - 1) * 0x800) by (nonlinear_arith)
                    requires
                        significand <= 2 * range - 1,
                        q <= 0x800,
                ;
            } else {
                if exponent > 1087 {
                    lemma_pow2_strictly_increases(12, (exponent - 1075) as nat);
                }
                assert(significand * q >= range * 0x1000) by (nonlinear_arith)
                    requires
                        significand >= range,
                        q >= 0x1000,
                ;
            }
        }
    }
}

/// A pattern without a sign bit stands for zero only when it is zero.
proof fn lemma_zero_magnitude(m: nat)
    ensures
        magnitude_value(m) == 0 <==> m == 0,
{
    lemma_magnitudes_ordered(0, m);
}

/// Patterns without a sign bit are ordered as the numbers they stand for.
pub proof fn lemma_magnitudes_ordered(m: nat, n: nat)
    ensures
        m < n ==> magnitude_value(m) < magnitude_value(n),
        n < m ==> magnitude_value(n) < magnitude_value(m),
{
    if m < n {
        lemma_magnitude_increases(m, n);
    } else if n < m {
        lemma_magnitude_increases(n, m);
    }
}

proof fn lemma_magnitude_increases(m: nat, n: nat)
    requires
        m < n,
    ensures
        magnitude_value(m) < magnitude_value(n),
{
    let range = FRACTION_RANGE as nat;
    let e = m / range;
    let f = m % range;
    let g = n / range;
    let h = n % range;
    assert(e <= g);
    if e == g {
        assert(f < h);
        if e > 0 {
            let p = pow2((e - 1) as nat);
            lemma_pow2_pos((e - 1) as nat);
            assert((range + f) * p < (range + h) * p) by (nonlinear_arith)
                requires
                    f < h,
                    p > 0,
            ;
        }
    } else {
        let q = pow2((g - 1) as nat);
        lemma_pow2_pos((g - 1) as nat);
        assert((range + h) * q >= range * q) by (nonlinear_arith);
        if e == 0 {
            assert(range * q >= range) by (nonlinear_arith)
                requires
                    q >= 1,
            ;
        } else {
            let p = pow2((e - 1) as nat);
            lemma_pow2_pos((e - 1) as nat);
            lemma_pow2_unfold(e);
            if e < g - 1 {
                lemma_pow2_strictly_increases(e, (g - 1) as nat);
            }
            assert((range + f) * p < range * (2 * p)) by (nonlinear_arith)
                requires
                    f < range,
                    p > 0,
            ;
            assert(range * (2 * p) <= range * q) by (nonlinear_arith)
                requires
                    2 * p <= q,
            ;
        }
    }
}

/// The number of double precision that a text writes, if it writes one.
pub uninterp spec fn written_double(text: Seq<char>) -> Option<Double>;

/// `str::parse` into a number of double precision. The outcome, which depends on the text alone, has
/// the name [`written_double`].
#[verifier::external_body]
pub(crate) fn parse_double(text: &str) -> (d: Option<Double>)
    ensures
        d == written_double(text@),
{
    let mut number = std::time::Duration::ZERO.as_secs_f64();
    number = text.parse().ok()?;
    Some(Double { bits: number.to_bits() })
}

} // verus!
