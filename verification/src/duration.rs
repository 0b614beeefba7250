//! Spans of time on the video timeline.

use crate::double::{unit, Double, FRACTION_RANGE};
use crate::rounding::{lemma_nearest_scales, lemma_nearest_zero, nearest, power_of_two};
use vstd::arithmetic::div_mod::*;
use vstd::arithmetic::power2::*;
use vstd::prelude::*;

verus! {

/// A span of time, counted in whole nanoseconds.
#[derive(Clone, Copy, Debug, PartialEq, Eq, Structural)]
pub struct Duration {
    pub nanos: u128,
}

/// The longest span a timeline can hold: `u64::MAX` seconds and the nanoseconds short of one more.
pub const MAX_NANOS: u128 = 18446744073709551615999999999;

impl Duration {
    /// The span of `secs` whole seconds.
    pub fn from_secs(secs: u64) -> (d: Duration)
        ensures
            d.nanos == secs * 1_000_000_000,
            d.nanos <= MAX_NANOS,
    {
        Duration { nanos: secs as u128 * 1_000_000_000 }
    }

    /// The span of `millis` whole milliseconds.
    pub fn from_millis(millis: u64) -> (d: Duration)
        ensures
            d.nanos == millis * 1_000_000,
            d.nanos <= MAX_NANOS,
    {
        Duration { nanos: millis as u128 * 1_000_000 }
    }

    /// The empty span.
    pub fn zero() -> (d: Duration)
        ensures
            d.nanos == 0,
    {
        Duration { nanos: 0 }
    }

    /// The difference, cut off at the empty span.
    pub fn saturating_sub(self, other: Duration) -> (d: Duration)
        ensures
            d.nanos == if self.nanos >= other.nanos {
                self.nanos - other.nanos
            } else {
                0
            },
    {
        if self.nanos >= other.nanos {
            Duration { nanos: self.nanos - other.nanos }
        } else {
            Duration { nanos: 0 }
        }
    }

    /// The sum of two spans that a timeline can hold together.
    pub fn plus(self, other: Duration) -> (d: Duration)
        requires
            self.nanos + other.nanos <= MAX_NANOS,
        ensures
            d.nanos == self.nanos + other.nanos,
    {
        Duration { nanos: self.nanos + other.nanos }
    }
}

/// The span of `secs` seconds, to the nearest nanosecond: there is one for every number from zero
/// up to, but short of, 2^64.
pub open spec fn span_of(secs: Double) -> Option<Duration> {
    if secs.spec_is_finite() && 0 <= secs.value() && secs.value() / unit() as int <= u64::MAX {
        Some(Duration { nanos: nearest(secs.value() * 1_000_000_000, unit() as int) as u128 })
    } else {
        None
    }
}

/// Where the binary point of a number of seconds lies, by its exponent bits.
proof fn lemma_span(secs: Double)
    requires
        secs.spec_is_finite(),
        !secs.negative_sign(),
    ensures
        ({
            let exponent = secs.magnitude() / FRACTION_RANGE as nat;
            let significand = FRACTION_RANGE + secs.magnitude() % FRACTION_RANGE as nat;
            let n = secs.value() * 1_000_000_000;
            &&& secs.value() >= 0
            &&& exponent < 991 ==> {
                &&& secs.value() / unit() as int == 0
                &&& nearest(n, unit() as int) == 0
            }
            &&& 991 <= exponent <= 1075 ==> {
                &&& secs.value() / unit() as int <= significand
                &&& nearest(n, unit() as int) == nearest(
                    significand * 1_000_000_000,
                    pow2((1075 - exponent) as nat) as int,
                )
            }
            &&& 1075 < exponent <= 1086 ==> {
                &&& secs.value() / unit() as int == significand * pow2((exponent - 1075) as nat)
                    <= u64::MAX
                &&& nearest(n, unit() as int) == significand * pow2((exponent - 1075) as nat)
                    * 1_000_000_000
            }
            &&& exponent > 1086 ==> secs.value() / unit() as int > u64::MAX
        }),
{
    let range = FRACTION_RANGE as nat;
    let exponent = secs.magnitude() / range;
    let fraction = secs.magnitude() % range;
    let significand = (range + fraction) as int;
    let u = unit() as int;
    let v = secs.value();
    let n = v * 1_000_000_000;
    lemma2_to64();
    lemma2_to64_rest();
    lemma_pow2_pos(1074);
    if exponent == 0 {
        lemma_pow2_adds(53, 31);
        lemma_pow2_strictly_increases(84, 1074);
        lemma_basic_div(v, u);
        lemma_nearest_zero(n, u);
    } else {
        let p = pow2((exponent - 1) as nat) as int;
        lemma_pow2_pos((exponent - 1) as nat);
        assert(v == significand * p);
        assert(v >= 0) by (nonlinear_arith)
            requires
                v == significand * p,
                p > 0,
                significand >= 0,
        ;
        if exponent <= 1075 {
            let q = pow2((1075 - exponent) as nat) as int;
            lemma_pow2_pos((1075 - exponent) as nat);
            lemma_pow2_adds((exponent - 1) as nat, (1075 - exponent) as nat);
            assert(u == p * q);
            assert(p * q == q * p) by (nonlinear_arith);
            assert(n == (significand * 1_000_000_000) * p) by (nonlinear_arith)
                requires
                    v == significand * p,
                    n == v * 1_000_000_000,
            ;
            lemma_nearest_scales(significand * 1_000_000_000, q, p);
            if exponent < 991 {
                lemma_pow2_adds(53, 31);
                if exponent < 990 {
                    lemma_pow2_strictly_increases(85, (1075 - exponent) as nat);
                }
                lemma_pow2_unfold(85);
                assert(2 * (significand * 1_000_000_000) < q);
                lemma_nearest_zero(significand * 1_000_000_000, q);
                assert(significand * p < q * p) by (nonlinear_arith)
                    requires
                        significand < q,
                        p > 0,
                ;
                lemma_basic_div(v, u);
            } else {
                lemma_div_denominator(significand * p, p, q);
                lemma_div_by_multiple(significand, p);
                lemma_div_is_ordered_by_denominator(significand, 1, q);
            }
        } else {
            let q = pow2((exponent - 1075) as nat) as int;
            let m = significand * q;
            lemma_pow2_adds(1074, (exponent - 1075) as nat);
            assert(v == m * u) by (nonlinear_arith)
                requires
                    v == significand * p,
                    p == u * q,
                    m == significand * q,
            ;
            lemma_div_by_multiple(m, u);
            assert(n == (m * 1_000_000_000) * u) by (nonlinear_arith)
                requires
                    v == m * u,
                    n == v * 1_000_000_000,
            ;
            lemma_div_by_multiple(m * 1_000_000_000, u);
            lemma_mod_multiples_basic(m * 1_000_000_000, u);
            if exponent <= 1086 {
                if exponent < 1086 {
                    lemma_pow2_strictly_increases((exponent - 1075) as nat, 11);
                }
                assert(m <= (2 * range - 1) * 0x800) by (nonlinear_arith)
                    requires
                        m == significand * q,
                        0 <= significand <= 2 * range - 1,
                        0 <= q <= 0x800,
                ;
            } else {
                if exponent > 1087 {
                    lemma_pow2_strictly_increases(12, (exponent - 1075) as nat);
                }
                assert(m >= range * 0x1000) by (nonlinear_arith)
                    requires
                        m == significand * q,
                        significand >= range,
                        q >= 0x1000,
                ;
            }
        }
    }
}

impl Duration {
    /// The span of `secs` seconds, to the nearest nanosecond, if a timeline can hold it.
    pub fn try_from_secs(secs: Double) -> (d: Option<Duration>)
        ensures
            d == span_of(secs),
            d is Some ==> d->0.nanos <= MAX_NANOS,
    {
        if !secs.is_finite() || secs.lt(Double::zero()) {
            return None;
        }
        if !secs.is_positive() {
            proof {
                lemma_pow2_pos(1074);
                lemma_basic_div(0, unit() as int);
                lemma_nearest_zero(0, unit() as int);
            }
            return Some(Duration { nanos: 0 });
        }
        let m: u64 = secs.bits;
        let exponent: u64 = m / FRACTION_RANGE;
        let significand: u64 = FRACTION_RANGE + m % FRACTION_RANGE;
        proof {
            lemma_span(secs);
        }
        if exponent < 991 {
            Some(Duration { nanos: 0 })
        } else if exponent <= 1075 {
            let n: u128 = significand as u128 * 1_000_000_000;
            let d: u128 = power_of_two(1075 - exponent);
            proof {
                lemma_pow2_pos((1075 - exponent) as nat);
            }
            let q: u128 = n / d;
            let r: u128 = n % d;
            assert(q <= n) by (nonlinear_arith)
                requires
                    q == n / d,
                    d >= 1,
            ;
            if r < d - r || (r == d - r && q % 2 == 0) {
                Some(Duration { nanos: q })
            } else {
                Some(Duration { nanos: q + 1 })
            }
        } else if exponent <= 1086 {
            let d: u128 = power_of_two(exponent - 1075);
            assert(significand * d <= u64::MAX);
            Some(Duration { nanos: significand as u128 * d * 1_000_000_000 })
        } else {
            None
        }
    }
}

} // verus!
