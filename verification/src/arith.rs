//! Arithmetic on double-precision numbers, rounded as IEEE 754 rounds by default: to the nearest
//! number, and to the even one of two.

use crate::double::{
    magnitude_value, truncated, unit, Double, FRACTION_RANGE, INFINITY_BITS, SIGN_BIT,
};
use crate::rounding::{
    brackets, is_quantum, law_rounding_is_near, lemma_magnitude_is_near, lemma_magnitude_monotone,
    lemma_magnitude_scales, lemma_nearest_bound, lemma_nearest_zero, lemma_quantum_exists,
    lemma_quantum_unique, nearest, nearest_magnitude, power_of_two, round_bits, scaled_den,
    scaled_num,
};
use vstd::arithmetic::div_mod::*;
use vstd::arithmetic::power2::*;
use vstd::prelude::*;

verus! {

/// The pattern that stands for what is not a number.
pub const NAN_BITS: u64 = 0x7ff8_0000_0000_0000;

/// The number with a given sign and a given pattern without one.
pub open spec fn signed(negative: bool, magnitude: nat) -> Double {
    if negative {
        Double { bits: (magnitude + SIGN_BIT) as u64 }
    } else {
        Double { bits: magnitude as u64 }
    }
}

/// The number nearest to `n / d` units of the smallest positive one, with a given sign.
pub open spec fn rounded(negative: bool, n: nat, d: nat) -> Double {
    signed(negative, nearest_magnitude(n, d))
}

/// What a number is without its sign, in units of the smallest positive one.
pub open spec fn size(x: Double) -> nat {
    magnitude_value(x.magnitude())
}

pub open spec fn is_infinite(x: Double) -> bool {
    x.magnitude() == INFINITY_BITS
}

pub open spec fn not_a_number() -> Double {
    Double { bits: NAN_BITS }
}

/// `x` with the other sign.
pub open spec fn negated(x: Double) -> Double {
    signed(!x.negative_sign(), x.magnitude())
}

/// `x + y`. All that is not a number is the same here.
pub open spec fn sum(x: Double, y: Double) -> Double {
    if x.spec_is_nan() || y.spec_is_nan() {
        not_a_number()
    } else if is_infinite(x) && is_infinite(y) && x.negative_sign() != y.negative_sign() {
        not_a_number()
    } else if is_infinite(x) {
        x
    } else if is_infinite(y) {
        y
    } else {
        let v = x.value() + y.value();
        if v > 0 {
            rounded(false, v as nat, 1)
        } else if v < 0 {
            rounded(true, (-v) as nat, 1)
        } else {
            signed(x.negative_sign() && y.negative_sign(), 0)
        }
    }
}

/// `x - y`.
pub open spec fn difference(x: Double, y: Double) -> Double {
    sum(x, negated(y))
}

/// `x * y`.
pub open spec fn product(x: Double, y: Double) -> Double {
    let negative = x.negative_sign() != y.negative_sign();
    if x.spec_is_nan() || y.spec_is_nan() {
        not_a_number()
    } else if is_infinite(x) || is_infinite(y) {
        if x.magnitude() == 0 || y.magnitude() == 0 {
            not_a_number()
        } else {
            signed(negative, INFINITY_BITS as nat)
        }
    } else {
        rounded(negative, size(x) * size(y), unit())
    }
}

/// `x / y`.
pub open spec fn quotient(x: Double, y: Double) -> Double {
    let negative = x.negative_sign() != y.negative_sign();
    if x.spec_is_nan() || y.spec_is_nan() {
        not_a_number()
    } else if is_infinite(x) {
        if is_infinite(y) {
            not_a_number()
        } else {
            signed(negative, INFINITY_BITS as nat)
        }
    } else if is_infinite(y) {
        signed(negative, 0)
    } else if y.magnitude() == 0 {
        if x.magnitude() == 0 {
            not_a_number()
        } else {
            signed(negative, INFINITY_BITS as nat)
        }
    } else {
        rounded(negative, size(x) * unit(), size(y))
    }
}

/// The number nearest to a whole one.
pub open spec fn of_whole(n: nat) -> Double {
    rounded(false, n * unit(), 1)
}

/// A finite pattern without a sign bit is a significand of at most 53 bits, times a power of two.
pub(crate) fn parts(m: u64) -> (sa: (u64, u64))
    requires
        m < INFINITY_BITS,
    ensures
        magnitude_value(m as nat) == sa.0 * pow2(sa.1 as nat),
        sa.0 < 2 * FRACTION_RANGE,
        sa.1 <= 2045,
        sa.1 > 0 ==> sa.0 >= FRACTION_RANGE,
        m > 0 ==> sa.0 > 0,
{
    let exponent: u64 = m / FRACTION_RANGE;
    let fraction: u64 = m % FRACTION_RANGE;
    if exponent == 0 {
        assert(pow2(0) == 1) by {
            lemma2_to64();
        }
        (fraction, 0)
    } else {
        (FRACTION_RANGE + fraction, exponent - 1)
    }
}

/// A multiple of the unit brackets itself.
pub proof fn lemma_exact_brackets(n: nat, d: nat, m: nat, e: int)
    requires
        d > 0,
        scaled_num(n, e) == scaled_den(d, e) * m,
    ensures
        brackets(n, d, m, e, false),
{
    let w = scaled_den(d, e);
    if e >= 0 {
        let c = pow2(e as nat);
        lemma_pow2_pos(e as nat);
        assert(d * c > 0) by (nonlinear_arith)
            requires
                d > 0,
                c > 0,
        ;
    }
    assert(w * (m + 1) == w * m + w) by (nonlinear_arith);
}

/// The pattern nearest to the sum of two finite ones without sign bits, the greater one first.
fn add_magnitudes(x: u64, y: u64) -> (bits: u64)
    requires
        y <= x < INFINITY_BITS,
    ensures
        bits == nearest_magnitude(
            (magnitude_value(x as nat) + magnitude_value(y as nat)) as nat,
            1,
        ),
        bits <= INFINITY_BITS,
{
    let (s, a) = parts(x);
    let (t, b) = parts(y);
    let ghost n = (magnitude_value(x as nat) + magnitude_value(y as nat)) as nat;
    proof {
        lemma_exponents_ordered(x, y, s, a, t, b);
        lemma2_to64();
        lemma2_to64_rest();
    }
    let gap: u64 = a - b;
    if gap <= 72 {
        let p: u128 = power_of_two(gap);
        proof {
            lemma_aligned(s as nat, a as nat, b as nat);
            lemma_pow2_adds(64, 8);
            if gap < 72 {
                lemma_pow2_strictly_increases(gap as nat, 72);
            }
            assert(s * p < 0x20_0000_0000_0000 * 0x100_0000_0000_0000_0000) by (nonlinear_arith)
                requires
                    s < 0x20_0000_0000_0000,
                    p <= 0x100_0000_0000_0000_0000,
            ;
        }
        let m: u128 = s as u128 * p + t as u128;
        proof {
            let c = pow2(b as nat);
            assert((s * p) * c + t * c == c * (s * p + t)) by (nonlinear_arith);
            assert(1 * c == c);
            lemma_exact_brackets(n, 1, m as nat, b as int);
        }
        round_bits(m, b as i64, false, Ghost(n), Ghost(1))
    } else {
        let m: u128 = s as u128 * 0x10_0000;
        proof {
            lemma_far_apart(s as nat, a as nat, t as nat, b as nat);
            let c = pow2((a - 20) as nat);
            assert(c * (m + 1) == c * m + c) by (nonlinear_arith);
        }
        round_bits(m, a as i64 - 20, t > 0, Ghost(n), Ghost(1))
    }
}

/// The pattern nearest to the difference of two finite ones without sign bits, the greater one
/// first.
fn sub_magnitudes(x: u64, y: u64) -> (bits: u64)
    requires
        y <= x < INFINITY_BITS,
    ensures
        magnitude_value(x as nat) >= magnitude_value(y as nat),
        bits == nearest_magnitude(
            (magnitude_value(x as nat) - magnitude_value(y as nat)) as nat,
            1,
        ),
        bits <= INFINITY_BITS,
{
    let (s, a) = parts(x);
    let (t, b) = parts(y);
    proof {
        crate::double::lemma_magnitudes_ordered(x as nat, y as nat);
    }
    let ghost n = (magnitude_value(x as nat) - magnitude_value(y as nat)) as nat;
    proof {
        lemma_exponents_ordered(x, y, s, a, t, b);
        lemma2_to64();
        lemma2_to64_rest();
    }
    let gap: u64 = a - b;
    if gap <= 72 {
        let p: u128 = power_of_two(gap);
        proof {
            lemma_aligned(s as nat, a as nat, b as nat);
            lemma_pow2_adds(64, 8);
            if gap < 72 {
                lemma_pow2_strictly_increases(gap as nat, 72);
            }
            assert(s * p < 0x20_0000_0000_0000 * 0x100_0000_0000_0000_0000) by (nonlinear_arith)
                requires
                    s < 0x20_0000_0000_0000,
                    p <= 0x100_0000_0000_0000_0000,
            ;
            let c = pow2(b as nat);
            lemma_pow2_pos(b as nat);
            assert(s * p >= t) by (nonlinear_arith)
                requires
                    (s * p) * c >= t * c,
                    c > 0,
            ;
        }
        let m: u128 = s as u128 * p - t as u128;
        proof {
            let c = pow2(b as nat);
            assert((s * p) * c - t * c == c * (s * p - t)) by (nonlinear_arith);
            assert(1 * c == c);
            lemma_exact_brackets(n, 1, m as nat, b as int);
        }
        round_bits(m, b as i64, false, Ghost(n), Ghost(1))
    } else {
        let m: u128 = if t > 0 {
            s as u128 * 0x10_0000 - 1
        } else {
            s as u128 * 0x10_0000
        };
        proof {
            lemma_far_apart(s as nat, a as nat, t as nat, b as nat);
            let c = pow2((a - 20) as nat);
            let whole = s * 0x10_0000;
            assert(c * (m + 1) == c * m + c) by (nonlinear_arith);
            assert(c * (whole - 1) == c * whole - c) by (nonlinear_arith);
        }
        round_bits(m, a as i64 - 20, t > 0, Ghost(n), Ghost(1))
    }
}

/// The greater of two numbers has the greater exponent.
proof fn lemma_exponents_ordered(x: u64, y: u64, s: u64, a: u64, t: u64, b: u64)
    requires
        y <= x < INFINITY_BITS,
        magnitude_value(x as nat) == s * pow2(a as nat),
        magnitude_value(y as nat) == t * pow2(b as nat),
        s < 2 * FRACTION_RANGE,
        t < 2 * FRACTION_RANGE,
        b > 0 ==> t >= FRACTION_RANGE,
    ensures
        b <= a,
{
    if a < b {
        crate::double::lemma_magnitudes_ordered(x as nat, y as nat);
        lemma_pow2_unfold(b as nat);
        if a < b - 1 {
            lemma_pow2_strictly_increases(a as nat, (b - 1) as nat);
        }
        let c = pow2(a as nat);
        let h = pow2((b - 1) as nat);
        lemma_pow2_pos(a as nat);
        assert(s * c < t * (2 * h)) by (nonlinear_arith)
            requires
                s < 2 * FRACTION_RANGE,
                t >= FRACTION_RANGE,
                c <= h,
                c > 0,
        ;
    }
}

/// A significand can be moved to a lower exponent.
proof fn lemma_aligned(s: nat, a: nat, b: nat)
    requires
        b <= a,
    ensures
        s * pow2(a) == (s * pow2((a - b) as nat)) * pow2(b),
{
    lemma_pow2_adds((a - b) as nat, b);
    let p = pow2((a - b) as nat);
    let c = pow2(b);
    assert(s * (p * c) == (s * p) * c) by (nonlinear_arith);
}

/// A number whose exponent is far below another's is less than a small part of it.
proof fn lemma_far_apart(s: nat, a: nat, t: nat, b: nat)
    requires
        b + 73 <= a,
        t < 2 * FRACTION_RANGE,
    ensures
        s * pow2(a) == pow2((a - 20) as nat) * (s * 0x10_0000),
        t * pow2(b) < pow2((a - 20) as nat),
        1 * pow2((a - 20) as nat) == pow2((a - 20) as nat),
        t > 0 ==> t * pow2(b) > 0,
{
    lemma2_to64();
    lemma2_to64_rest();
    let c = pow2((a - 20) as nat);
    lemma_pow2_adds((a - 20) as nat, 20);
    assert(s * (c * 0x10_0000) == c * (s * 0x10_0000)) by (nonlinear_arith);
    lemma_pow2_adds(53, b);
    let d = pow2(b);
    lemma_pow2_pos(b);
    if 53 + b < a - 20 {
        lemma_pow2_strictly_increases(53 + b, (a - 20) as nat);
    }
    assert(t * d < 0x20_0000_0000_0000 * d) by (nonlinear_arith)
        requires
            t < 0x20_0000_0000_0000,
            d > 0,
    ;
    assert(t > 0 ==> t * d > 0) by (nonlinear_arith)
        requires
            d > 0,
    ;
}

/// The pattern nearest to the product of two finite ones without sign bits.
fn mul_magnitudes(x: u64, y: u64) -> (bits: u64)
    requires
        x < INFINITY_BITS,
        y < INFINITY_BITS,
    ensures
        bits == nearest_magnitude(magnitude_value(x as nat) * magnitude_value(y as nat), unit()),
        bits <= INFINITY_BITS,
{
    let (s, a) = parts(x);
    let (t, b) = parts(y);
    let ghost n = magnitude_value(x as nat) * magnitude_value(y as nat);
    assert(s * t < 0x20_0000_0000_0000 * 0x20_0000_0000_0000) by (nonlinear_arith)
        requires
            s < 0x20_0000_0000_0000,
            t < 0x20_0000_0000_0000,
    ;
    let m: u128 = s as u128 * t as u128;
    let e: i64 = a as i64 + b as i64 - 1074;
    proof {
        let pa = pow2(a as nat);
        let pb = pow2(b as nat);
        let u = unit();
        lemma_pow2_adds(a as nat, b as nat);
        assert((s * pa) * (t * pb) == (pa * pb) * (s * t)) by (nonlinear_arith);
        lemma_pow2_pos(1074);
        if e >= 0 {
            lemma_pow2_adds(1074, e as nat);
        } else {
            lemma_pow2_adds((a + b) as nat, (-e) as nat);
            let c = pow2((-e) as nat);
            let ab = pa * pb;
            assert((ab * (s * t)) * c == (ab * c) * (s * t)) by (nonlinear_arith);
        }
        lemma_exact_brackets(n, u, m as nat, e as int);
    }
    round_bits(m, e, false, Ghost(n), Ghost(unit()))
}

/// Moves the highest bit of a significand up.
fn normalized(s: u64) -> (st: (u64, u64))
    requires
        0 < s < 2 * FRACTION_RANGE,
    ensures
        st.0 == s * pow2(st.1 as nat),
        FRACTION_RANGE <= st.0 < 2 * FRACTION_RANGE,
        st.1 <= 52,
{
    let mut v: u64 = s;
    let mut t: u64 = 0;
    proof {
        lemma2_to64();
        lemma2_to64_rest();
    }
    while v < FRACTION_RANGE
        invariant
            0 < s,
            0 < v < 2 * FRACTION_RANGE,
            v == s * pow2(t as nat),
            t <= 52,
            t == 52 ==> v >= FRACTION_RANGE,
            pow2(52) == FRACTION_RANGE,
        decreases 2 * FRACTION_RANGE - v,
    {
        proof {
            lemma_pow2_unfold((t + 1) as nat);
            let p = pow2(t as nat);
            assert(s * (2 * p) == 2 * (s * p)) by (nonlinear_arith);
            if t + 1 == 52 {
                assert(s * pow2(52) >= pow2(52)) by (nonlinear_arith)
                    requires
                        s >= 1,
                        pow2(52) > 0,
                ;
            }
        }
        v = v * 2;
        t = t + 1;
    }
    (v, t)
}

/// The pattern nearest to the quotient of two finite ones without sign bits, neither of them zero.
fn div_magnitudes(x: u64, y: u64) -> (bits: u64)
    requires
        0 < x < INFINITY_BITS,
        0 < y < INFINITY_BITS,
    ensures
        bits == nearest_magnitude(magnitude_value(x as nat) * unit(), magnitude_value(y as nat)),
        bits <= INFINITY_BITS,
{
    let (s, a) = parts(x);
    let (t, b) = parts(y);
    let (v, l) = normalized(s);
    let p: u128 = power_of_two(73);
    proof {
        lemma2_to64();
        lemma2_to64_rest();
        lemma_pow2_adds(64, 9);
        assert(v * p < 0x4000_0000_0000_0000_0000_0000_0000_0000) by (nonlinear_arith)
            requires
                v < 0x20_0000_0000_0000,
                p == 0x200_0000_0000_0000_0000,
        ;
        assert(v * p >= 0x10_0000_0000_0000 * 0x200_0000_0000_0000_0000) by (nonlinear_arith)
            requires
                v >= 0x10_0000_0000_0000,
                p == 0x200_0000_0000_0000_0000,
        ;
    }
    let whole: u128 = v as u128 * p;
    let m: u128 = whole / t as u128;
    let r: u128 = whole % t as u128;
    let e: i64 = a as i64 - l as i64 - 73 - b as i64 + 1074;
    let ghost n = magnitude_value(x as nat) * unit();
    let ghost d = magnitude_value(y as nat);
    proof {
        lemma_fundamental_div_mod(whole as int, t as int);
        let mi = m as int;
        let ti = t as int;
        let ri = r as int;
        assert(mi <= whole) by (nonlinear_arith)
            requires
                whole == ti * mi + ri,
                ti >= 1,
                ri >= 0,
                mi >= 0,
        ;
        assert(mi >= 0x40_0000_0000_0000) by (nonlinear_arith)
            requires
                whole == ti * mi + ri,
                0 <= ri < ti,
                ti < 0x20_0000_0000_0000,
                whole >= 0x10_0000_0000_0000 * 0x200_0000_0000_0000_0000,
                mi >= 0,
        ;
        lemma_quotient_brackets(
            s as nat,
            a as nat,
            t as nat,
            b as nat,
            l as nat,
            m as nat,
            r as nat,
            e as int,
        );
    }
    round_bits(m, e, r != 0, Ghost(n), Ghost(d))
}

proof fn lemma_quotient_brackets(
    s: nat,
    a: nat,
    t: nat,
    b: nat,
    l: nat,
    m: nat,
    r: nat,
    e: int,
)
    requires
        t > 0,
        (s * pow2(l)) * pow2(73) == t * m + r,
        r < t,
        e == a - l - 73 - b + 1074,
    ensures
        t * pow2(b) > 0,
        brackets((s * pow2(a)) * unit(), t * pow2(b), m, e, r != 0),
{
    let n = (s * pow2(a)) * unit();
    let d = t * pow2(b);
    let num = scaled_num(n, e);
    let den = scaled_den(d, e);
    let c = pow2(l + 73);
    lemma_pow2_adds(l, 73);
    lemma_pow2_pos(l + 73);
    lemma_pow2_pos(b);
    let pa = pow2(a);
    let pb = pow2(b);
    let pl = pow2(l);
    let p73 = pow2(73);
    let u = unit();
    assert(t * pb > 0) by (nonlinear_arith)
        requires
            t > 0,
            pb > 0,
    ;
    let w: nat;
    if e >= 0 {
        w = pow2(a + 1074);
        let pe = pow2(e as nat);
        lemma_pow2_adds(a, 1074);
        lemma_pow2_adds(b, e as nat);
        lemma_pow2_adds(b + e as nat, l + 73);
        assert(b + e as nat + (l + 73) == a + 1074);
        assert(((s * pa) * u) * c == (t * m + r) * (pa * u)) by (nonlinear_arith)
            requires
                c == pl * p73,
                (s * pl) * p73 == t * m + r,
        ;
        assert(((t * pb) * pe) * c == t * ((pb * pe) * c)) by (nonlinear_arith);
    } else {
        w = pow2(b + l + 73);
        let pe = pow2((-e) as nat);
        lemma_pow2_adds(a, 1074);
        lemma_pow2_adds(a + 1074, (-e) as nat);
        lemma_pow2_adds(b, l + 73);
        assert(a + 1074 + (-e) as nat == b + (l + 73));
        assert((((s * pa) * u) * pe) * c == (t * m + r) * ((pa * u) * pe)) by (nonlinear_arith)
            requires
                c == pl * p73,
                (s * pl) * p73 == t * m + r,
        ;
        assert((t * pb) * c == t * (pb * c)) by (nonlinear_arith);
    }
    lemma_pow2_pos(a + 1074);
    lemma_pow2_pos(b + l + 73);
    assert(num * c == (t * m + r) * w);
    assert(den * c == t * w);
    lemma_cancelled(num as int, den as int, t as int, m as int, r as int, c as int, w as int);
}

/// What holds of a quotient holds without the common factors of its two sides.
proof fn lemma_cancelled(num: int, den: int, t: int, m: int, r: int, c: int, w: int)
    requires
        num * c == (t * m + r) * w,
        den * c == t * w,
        c > 0,
        w > 0,
        0 <= r < t,
    ensures
        den * m <= num < den * (m + 1),
        (r != 0) == (num != den * m),
{
    let low = den * m;
    let high = den * (m + 1);
    let tm = t * m;
    assert(low * c == tm * w) by (nonlinear_arith)
        requires
            den * c == t * w,
            low == den * m,
            tm == t * m,
    ;
    assert(high * c == (tm + t) * w) by (nonlinear_arith)
        requires
            den * c == t * w,
            high == den * (m + 1),
            tm == t * m,
    ;
    assert(tm * w <= (tm + r) * w < (tm + t) * w) by (nonlinear_arith)
        requires
            w > 0,
            0 <= r < t,
    ;
    assert(r != 0 ==> tm * w != (tm + r) * w) by (nonlinear_arith)
        requires
            w > 0,
    ;
    assert(low <= num) by (nonlinear_arith)
        requires
            low * c <= num * c,
            c > 0,
    ;
    assert(num < high) by (nonlinear_arith)
        requires
            num * c < high * c,
            c > 0,
    ;
    if r == 0 {
        assert(num == low) by (nonlinear_arith)
            requires
                low * c == num * c,
                c > 0,
        ;
    }
}

/// Zero rounds to zero.
pub proof fn lemma_zero_rounds(d: nat)
    requires
        d > 0,
    ensures
        nearest_magnitude(0, d) == 0,
{
    lemma2_to64();
    lemma2_to64_rest();
    assert(d * pow2(53) > 0) by (nonlinear_arith)
        requires
            d > 0,
            pow2(53) > 0,
    ;
    assert(is_quantum(0, d, 0));
    let chosen = choose|l: nat| is_quantum(0, d, l);
    lemma_quantum_unique(0, d, 0, chosen);
    lemma_nearest_zero(0, d as int);
}

/// The number with a given sign and a given pattern without one.
fn with_sign(negative: bool, magnitude: u64) -> (d: Double)
    requires
        magnitude < SIGN_BIT,
    ensures
        d == signed(negative, magnitude as nat),
        d.magnitude() == magnitude,
        d.negative_sign() == negative,
{
    if negative {
        Double { bits: magnitude + SIGN_BIT }
    } else {
        Double { bits: magnitude }
    }
}

impl Double {
    /// The number with the other sign.
    pub fn negate(self) -> (d: Double)
        ensures
            d == negated(self),
            d.value() == -self.value(),
    {
        with_sign(self.bits < SIGN_BIT, self.exec_magnitude())
    }

    /// The sum of two numbers.
    pub fn plus(self, other: Double) -> (d: Double)
        ensures
            d == sum(self, other),
    {
        let x: u64 = self.exec_magnitude();
        let y: u64 = other.exec_magnitude();
        let a: bool = self.bits >= SIGN_BIT;
        let b: bool = other.bits >= SIGN_BIT;
        if x > INFINITY_BITS || y > INFINITY_BITS {
            return Double { bits: NAN_BITS };
        }
        if x == INFINITY_BITS && y == INFINITY_BITS && a != b {
            return Double { bits: NAN_BITS };
        }
        if x == INFINITY_BITS {
            return self;
        }
        if y == INFINITY_BITS {
            return other;
        }
        proof {
            crate::double::lemma_magnitudes_ordered(x as nat, y as nat);
            crate::double::lemma_magnitudes_ordered(x as nat, 0);
            crate::double::lemma_magnitudes_ordered(y as nat, 0);
            lemma_zero_rounds(1);
        }
        if a == b {
            let bits: u64 = if x >= y {
                add_magnitudes(x, y)
            } else {
                add_magnitudes(y, x)
            };
            with_sign(a, bits)
        } else if x > y {
            let bits: u64 = sub_magnitudes(x, y);
            with_sign(a, bits)
        } else if x < y {
            let bits: u64 = sub_magnitudes(y, x);
            with_sign(b, bits)
        } else {
            with_sign(false, 0)
        }
    }

    /// The difference of two numbers.
    pub fn minus(self, other: Double) -> (d: Double)
        ensures
            d == difference(self, other),
    {
        self.plus(other.negate())
    }

    /// The product of two numbers.
    pub fn times(self, other: Double) -> (d: Double)
        ensures
            d == product(self, other),
    {
        let x: u64 = self.exec_magnitude();
        let y: u64 = other.exec_magnitude();
        let negative: bool = (self.bits >= SIGN_BIT) != (other.bits >= SIGN_BIT);
        if x > INFINITY_BITS || y > INFINITY_BITS {
            return Double { bits: NAN_BITS };
        }
        if x == INFINITY_BITS || y == INFINITY_BITS {
            if x == 0 || y == 0 {
                return Double { bits: NAN_BITS };
            }
            return with_sign(negative, INFINITY_BITS);
        }
        let bits: u64 = mul_magnitudes(x, y);
        with_sign(negative, bits)
    }

    /// The quotient of two numbers.
    pub fn over(self, other: Double) -> (d: Double)
        ensures
            d == quotient(self, other),
    {
        let x: u64 = self.exec_magnitude();
        let y: u64 = other.exec_magnitude();
        let negative: bool = (self.bits >= SIGN_BIT) != (other.bits >= SIGN_BIT);
        if x > INFINITY_BITS || y > INFINITY_BITS {
            return Double { bits: NAN_BITS };
        }
        if x == INFINITY_BITS {
            if y == INFINITY_BITS {
                return Double { bits: NAN_BITS };
            }
            return with_sign(negative, INFINITY_BITS);
        }
        if y == INFINITY_BITS {
            return with_sign(negative, 0);
        }
        if y == 0 {
            if x == 0 {
                return Double { bits: NAN_BITS };
            }
            return with_sign(negative, INFINITY_BITS);
        }
        if x == 0 {
            proof {
                crate::double::lemma_magnitudes_ordered(0, y as nat);
                lemma_zero_rounds(size(other));
                let u = unit();
                assert(size(self) == 0);
                assert(0 * u == 0) by (nonlinear_arith);
            }
            return with_sign(negative, 0);
        }
        let bits: u64 = div_magnitudes(x, y);
        with_sign(negative, bits)
    }

    /// The number nearest to a whole one.
    pub fn from_u64(n: u64) -> (d: Double)
        ensures
            d == of_whole(n as nat),
            !d.negative_sign(),
            !d.spec_is_nan(),
    {
        let ghost exact = (n * unit()) as nat;
        proof {
            let u = unit();
            assert(1 * u == u);
            assert(n * u == u * n) by (nonlinear_arith);
            lemma_exact_brackets(exact, 1, n as nat, 1074);
        }
        let bits: u64 = round_bits(n as u128, 1074, false, Ghost(exact), Ghost(1));
        with_sign(false, bits)
    }
}

/// A whole number with a sign, nearest in double precision.
pub open spec fn of_signed(n: int) -> Double {
    if n < 0 {
        negated(of_whole((-n) as nat))
    } else {
        of_whole(n as nat)
    }
}

/// The number that `d` rounds up to, cut off at the bounds of `u64`; zero for what is not a number.
pub open spec fn ceiling(d: Double) -> int {
    let u = unit() as int;
    if d.spec_is_nan() || d.value() <= 0 {
        0
    } else {
        let up = if d.value() % u == 0 {
            d.value() / u
        } else {
            d.value() / u + 1
        };
        if up > u64::MAX {
            u64::MAX as int
        } else {
            up
        }
    }
}

/// The whole number nearest to `d`, away from zero of two, cut off at the bounds of `i64`; zero for
/// what is not a number.
pub open spec fn nearest_whole(d: Double) -> int {
    let u = unit() as int;
    if d.spec_is_nan() {
        0
    } else {
        let away = (2 * size(d) + u) / (2 * u);
        if d.negative_sign() {
            if away > 0x8000_0000_0000_0000 {
                i64::MIN as int
            } else {
                -away
            }
        } else if away > i64::MAX {
            i64::MAX as int
        } else {
            away
        }
    }
}

/// Where the binary point of a number that is not zero lies: `2 * size / unit` is a multiple of a
/// power of two, or a significand over one.
proof fn lemma_point(m: nat, s: nat, a: nat)
    requires
        magnitude_value(m) == s * pow2(a),
        s < 2 * FRACTION_RANGE,
        a > 0 ==> s >= FRACTION_RANGE,
        s > 0,
    ensures
        ({
            let u = unit() as int;
            let v = magnitude_value(m) as int;
            &&& a <= 1020 ==> 0 < 2 * v < u
            &&& 1020 < a <= 1074 ==> {
                let w = pow2((1074 - a) as nat) as int;
                &&& v / u == s as int / w
                &&& (v % u == 0 <==> s as int % w == 0)
                &&& (2 * v + u) / (2 * u) == (2 * s + w) / (2 * w)
            }
            &&& a > 1074 ==> {
                let w = pow2((a - 1074) as nat) as int;
                &&& v / u == s * w
                &&& v % u == 0
                &&& (2 * v + u) / (2 * u) == s * w
            }
        }),
{
    let u = unit() as int;
    let v = magnitude_value(m) as int;
    lemma2_to64();
    lemma2_to64_rest();
    lemma_pow2_pos(1074);
    lemma_pow2_pos(a);
    let c = pow2(a) as int;
    let si = s as int;
    if a <= 1020 {
        lemma_pow2_unfold(1074);
        lemma_pow2_adds(53, a);
        if 53 + a < 1073 {
            lemma_pow2_strictly_increases(53 + a, 1073);
        }
        assert(0 < si * c < 0x20_0000_0000_0000 * c) by (nonlinear_arith)
            requires
                0 < si < 0x20_0000_0000_0000,
                c > 0,
        ;
    } else if a <= 1074 {
        let w = pow2((1074 - a) as nat) as int;
        lemma_pow2_pos((1074 - a) as nat);
        lemma_pow2_adds(a, (1074 - a) as nat);
        assert(u == c * w);
        let q = si / w;
        let r = si % w;
        lemma_fundamental_div_mod(si, w);
        assert(v == q * u + r * c) by (nonlinear_arith)
            requires
                v == si * c,
                si == w * q + r,
                u == c * w,
        ;
        assert(0 <= r * c < u) by (nonlinear_arith)
            requires
                0 <= r < w,
                c > 0,
                u == c * w,
        ;
        lemma_fundamental_div_mod_converse(v, u, q, r * c);
        assert(r * c == 0 <==> r == 0) by (nonlinear_arith)
            requires
                c > 0,
        ;
        let top = 2 * si + w;
        let q2 = top / (2 * w);
        let r2 = top % (2 * w);
        lemma_fundamental_div_mod(top, 2 * w);
        assert(2 * v + u == q2 * (2 * u) + r2 * c) by (nonlinear_arith)
            requires
                v == si * c,
                top == 2 * si + w,
                top == (2 * w) * q2 + r2,
                u == c * w,
        ;
        assert(0 <= r2 * c < 2 * u) by (nonlinear_arith)
            requires
                0 <= r2 < 2 * w,
                c > 0,
                u == c * w,
        ;
        lemma_fundamental_div_mod_converse(2 * v + u, 2 * u, q2, r2 * c);
    } else {
        let w = pow2((a - 1074) as nat) as int;
        lemma_pow2_adds(1074, (a - 1074) as nat);
        let n = si * w;
        assert(v == n * u) by (nonlinear_arith)
            requires
                v == si * c,
                c == u * w,
                n == si * w,
        ;
        lemma_fundamental_div_mod_converse(v, u, n, 0);
        assert(2 * v + u == n * (2 * u) + u) by (nonlinear_arith)
            requires
                v == n * u,
        ;
        lemma_fundamental_div_mod_converse(2 * v + u, 2 * u, n, u);
    }
}

impl Double {
    /// The number nearest to a whole one that may be negative.
    pub fn from_i64(n: i64) -> (d: Double)
        ensures
            d == of_signed(n as int),
    {
        if n < 0 {
            let size: u64 = if n == i64::MIN {
                0x8000_0000_0000_0000
            } else {
                (-n) as u64
            };
            Double::from_u64(size).negate()
        } else {
            Double::from_u64(n as u64)
        }
    }

    /// The number that this rounds up to, cut off at the bounds of `u64`; zero for what is not a
    /// number.
    pub fn ceil_to_u64(self) -> (n: u64)
        ensures
            n == ceiling(self),
    {
        if !self.is_positive() {
            return 0;
        }
        let x: u64 = self.exec_magnitude();
        if x == INFINITY_BITS {
            proof {
                lemma_infinite_size();
            }
            return u64::MAX;
        }
        let (s, a) = parts(x);
        proof {
            crate::double::lemma_magnitudes_ordered(x as nat, 0);
            lemma_point(x as nat, s as nat, a as nat);
            lemma2_to64();
            lemma2_to64_rest();
            lemma_pow2_pos(1074);
        }
        if a <= 1020 {
            proof {
                lemma_basic_div(self.value(), unit() as int);
                lemma_small_mod(self.value() as nat, unit());
            }
            1
        } else if a <= 1074 {
            let w: u128 = power_of_two(1074 - a);
            proof {
                lemma_pow2_pos((1074 - a) as nat);
            }
            let q: u128 = s as u128 / w;
            assert(q <= s) by (nonlinear_arith)
                requires
                    q == s as u128 / w,
                    w >= 1,
            ;
            if s as u128 % w == 0 {
                q as u64
            } else {
                q as u64 + 1
            }
        } else if a <= 1085 {
            let w: u128 = power_of_two(a - 1074);
            proof {
                if a < 1085 {
                    lemma_pow2_strictly_increases((a - 1074) as nat, 11);
                }
                assert(s * w <= 0x1f_ffff_ffff_ffff * 0x800) by (nonlinear_arith)
                    requires
                        s <= 0x1f_ffff_ffff_ffff,
                        w <= 0x800,
                ;
            }
            (s as u128 * w) as u64
        } else {
            proof {
                let w = pow2((a - 1074) as nat);
                if a > 1086 {
                    lemma_pow2_strictly_increases(12, (a - 1074) as nat);
                }
                assert(s * w >= 0x10_0000_0000_0000 * 0x1000) by (nonlinear_arith)
                    requires
                        s >= 0x10_0000_0000_0000,
                        w >= 0x1000,
                ;
            }
            u64::MAX
        }
    }

    /// The whole number nearest to this, away from zero of two, cut off at the bounds of `i64`; zero
    /// for what is not a number.
    pub fn round_to_i64(self) -> (n: i64)
        ensures
            n == nearest_whole(self),
    {
        let x: u64 = self.exec_magnitude();
        if x > INFINITY_BITS {
            return 0;
        }
        let away: u64 = nearest_size(x);
        if self.bits >= SIGN_BIT {
            if away >= 0x8000_0000_0000_0000 {
                i64::MIN
            } else {
                -(away as i64)
            }
        } else if away > 0x7fff_ffff_ffff_ffff {
            i64::MAX
        } else {
            away as i64
        }
    }
}

/// Infinity is above every whole number that is counted here.
pub proof fn lemma_infinite_size()
    ensures
        magnitude_value(INFINITY_BITS as nat) / unit() > u64::MAX,
        (2 * magnitude_value(INFINITY_BITS as nat) + unit()) / (2 * unit()) > u64::MAX,
{
    let u = unit() as int;
    let v = magnitude_value(INFINITY_BITS as nat) as int;
    lemma2_to64();
    lemma2_to64_rest();
    lemma_pow2_pos(1074);
    lemma_pow2_adds(1074, 972);
    lemma_pow2_strictly_increases(12, 972);
    let w = pow2(972) as int;
    let n = 0x10_0000_0000_0000 * w;
    assert(v == n * u) by (nonlinear_arith)
        requires
            v == 0x10_0000_0000_0000 * (u * w),
            n == 0x10_0000_0000_0000 * w,
    ;
    lemma_fundamental_div_mod_converse(v, u, n, 0);
    assert(2 * v + u == n * (2 * u) + u) by (nonlinear_arith)
        requires
            v == n * u,
    ;
    lemma_fundamental_div_mod_converse(2 * v + u, 2 * u, n, u);
}

/// The whole number nearest to a pattern without a sign bit, upwards of two; `u64::MAX` where it is
/// more than that.
fn nearest_size(x: u64) -> (n: u64)
    requires
        x <= INFINITY_BITS,
    ensures
        ({
            let away = (2 * magnitude_value(x as nat) + unit()) / (2 * unit());
            n == if away > u64::MAX {
                u64::MAX as nat
            } else {
                away
            }
        }),
{
    if x == INFINITY_BITS {
        proof {
            lemma_infinite_size();
        }
        return u64::MAX;
    }
    let (s, a) = parts(x);
    proof {
        lemma2_to64();
        lemma2_to64_rest();
        lemma_pow2_pos(1074);
    }
    if s == 0 {
        proof {
            lemma_basic_div(unit() as int, 2 * unit() as int);
        }
        return 0;
    }
    proof {
        lemma_point(x as nat, s as nat, a as nat);
    }
    if a <= 1020 {
        proof {
            lemma_basic_div(2 * magnitude_value(x as nat) + unit() as int, 2 * unit() as int);
        }
        0
    } else if a <= 1074 {
        let w: u128 = power_of_two(1074 - a);
        proof {
            lemma_pow2_pos((1074 - a) as nat);
            if 1074 - a < 53 {
                lemma_pow2_strictly_increases((1074 - a) as nat, 53);
            }
        }
        let top: u128 = 2 * s as u128 + w;
        let low: u128 = 2 * w;
        let n: u128 = top / low;
        assert(n <= top) by (nonlinear_arith)
            requires
                n == top / low,
                low >= 1,
        ;
        n as u64
    } else if a <= 1085 {
        let w: u128 = power_of_two(a - 1074);
        proof {
            if a < 1085 {
                lemma_pow2_strictly_increases((a - 1074) as nat, 11);
            }
            assert(s * w <= 0x1f_ffff_ffff_ffff * 0x800) by (nonlinear_arith)
                requires
                    s <= 0x1f_ffff_ffff_ffff,
                    w <= 0x800,
            ;
        }
        (s as u128 * w) as u64
    } else {
        proof {
            let w = pow2((a - 1074) as nat);
            if a > 1086 {
                lemma_pow2_strictly_increases(12, (a - 1074) as nat);
            }
            assert(s * w >= 0x10_0000_0000_0000 * 0x1000) by (nonlinear_arith)
                requires
                    s >= 0x10_0000_0000_0000,
                    w >= 0x1000,
            ;
        }
        u64::MAX
    }
}

/// A number that double precision can hold is what it rounds to.
pub proof fn law_representable_is_exact(x: Double)
    requires
        x.spec_is_finite(),
    ensures
        rounded(x.negative_sign(), size(x), 1) == x,
{
    let m = x.magnitude();
    let exponent = m / FRACTION_RANGE as nat;
    let fraction = m % FRACTION_RANGE as nat;
    let k = if exponent == 0 {
        0nat
    } else {
        (exponent - 1) as nat
    };
    let s = if exponent == 0 {
        fraction
    } else {
        FRACTION_RANGE as nat + fraction
    };
    lemma2_to64();
    lemma2_to64_rest();
    let c = pow2(k);
    lemma_pow2_pos(k);
    lemma_pow2_adds(53, k);
    lemma_pow2_adds(52, k);
    if exponent == 0 {
        assert(s * c == s) by (nonlinear_arith)
            requires
                c == 1,
        ;
    }
    assert(size(x) == s * c);
    assert(s * c < 0x20_0000_0000_0000 * c) by (nonlinear_arith)
        requires
            s < 0x20_0000_0000_0000,
            c > 0,
    ;
    assert(k > 0 ==> s * c >= 0x10_0000_0000_0000 * c) by (nonlinear_arith)
        requires
            k > 0 ==> s >= 0x10_0000_0000_0000,
            c > 0,
    ;
    assert(is_quantum(size(x), 1, k));
    let chosen = choose|l: nat| is_quantum(size(x), 1, l);
    lemma_quantum_unique(size(x), 1, k, chosen);
    lemma_fundamental_div_mod_converse(size(x) as int, c as int, s as int, 0);
    assert(1 * c == c);
    assert(nearest(size(x) as int, c as int) == s);
    assert(m == s + k * FRACTION_RANGE);
}

/// A number that is not negative; infinity counts, what is not a number does not.
pub open spec fn is_amount(x: Double) -> bool {
    !x.spec_is_nan() && x.value() >= 0
}

/// Rounding keeps the sign, and gives a number.
pub proof fn lemma_rounded_sign(n: nat, d: nat)
    requires
        d > 0,
    ensures
        is_amount(rounded(false, n, d)),
        nearest_magnitude(n, d) <= INFINITY_BITS,
{
    let k = choose|k: nat| is_quantum(n, d, k);
    let p = pow2(k);
    lemma_pow2_pos(k);
    assert(d * p > 0) by (nonlinear_arith)
        requires
            d > 0,
            p > 0,
    ;
    lemma_div_pos_is_pos(n as int, (d * p) as int);
    assert(nearest(n as int, (d * p) as int) >= 0);
    assert(k * FRACTION_RANGE >= 0);
}

/// Amounts add up to an amount.
pub proof fn law_sum_of_amounts(x: Double, y: Double)
    requires
        is_amount(x),
        is_amount(y),
    ensures
        is_amount(sum(x, y)),
{
    let v = x.value() + y.value();
    if v > 0 {
        lemma_rounded_sign(v as nat, 1);
    }
    crate::double::lemma_magnitudes_ordered(x.magnitude(), 0);
    crate::double::lemma_magnitudes_ordered(y.magnitude(), 0);
}

/// The product of two amounts that are finite is an amount.
pub proof fn law_product_of_amounts(x: Double, y: Double)
    requires
        is_amount(x),
        is_amount(y),
        x.spec_is_finite(),
        y.spec_is_finite(),
        !x.negative_sign(),
        !y.negative_sign(),
    ensures
        is_amount(product(x, y)),
{
    lemma_pow2_pos(1074);
    lemma_rounded_sign(size(x) * size(y), unit());
}

/// A whole number is an amount, and finite.
pub proof fn law_whole_is_amount(n: nat)
    requires
        n <= u64::MAX,
    ensures
        is_amount(of_whole(n)),
        of_whole(n).spec_is_finite(),
        !of_whole(n).negative_sign(),
{
    let exact = n * unit();
    lemma_rounded_sign(exact, 1);
    lemma2_to64();
    lemma2_to64_rest();
    lemma_pow2_pos(1074);
    let k = choose|k: nat| is_quantum(exact, 1, k);
    lemma_quantum_exists(exact, 1);
    let c = pow2(k);
    lemma_pow2_pos(k);
    lemma_pow2_adds(64, 1074);
    let u = unit();
    assert(exact < 0x1_0000_0000_0000_0000 * u) by (nonlinear_arith)
        requires
            exact == n * u,
            n < 0x1_0000_0000_0000_0000,
            u > 0,
    ;
    if k > 1086 {
        if 52 + k > 1138 {
            lemma_pow2_strictly_increases(1138, 52 + k);
        }
    }
    lemma_pow2_adds(53, k);
    lemma_nearest_bound(exact as int, c as int, 0x20_0000_0000_0000);
}

/// A power of two that double precision can hold is what it rounds to.
proof fn lemma_power_rounds(j: nat)
    requires
        52 <= j <= 2097,
    ensures
        nearest_magnitude(pow2(j), 1) == (j - 51) * FRACTION_RANGE,
        magnitude_value(nearest_magnitude(pow2(j), 1)) == pow2(j),
{
    let k = (j - 52) as nat;
    let c = pow2(k);
    lemma2_to64();
    lemma2_to64_rest();
    lemma_pow2_pos(k);
    lemma_pow2_adds(52, k);
    lemma_pow2_unfold(j + 1);
    assert(is_quantum(pow2(j), 1, k));
    let chosen = choose|l: nat| is_quantum(pow2(j), 1, l);
    lemma_quantum_unique(pow2(j), 1, k, chosen);
    assert(1 * c == c);
    lemma_fundamental_div_mod_converse(pow2(j) as int, c as int, 0x10_0000_0000_0000, 0);
    let m = ((j - 51) * FRACTION_RANGE) as nat;
    assert(nearest_magnitude(pow2(j), 1) == m);
    lemma_fundamental_div_mod_converse(m as int, FRACTION_RANGE as int, j - 51, 0);
}

/// What is no more than a power of two rounds to no more than that.
pub proof fn lemma_rounds_below_power(n: nat, d: nat, j: nat)
    requires
        d > 0,
        52 <= j <= 2097,
        n <= d * pow2(j),
    ensures
        rounded(false, n, d).spec_is_finite(),
        !rounded(false, n, d).negative_sign(),
        size(rounded(false, n, d)) <= pow2(j),
{
    let p = pow2(j);
    lemma_magnitude_monotone(n, d * p, d);
    lemma_magnitude_scales(p, 1, d);
    assert(p * d == d * p) by (nonlinear_arith);
    assert(1 * d == d);
    lemma_power_rounds(j);
    let m = nearest_magnitude(n, d);
    crate::double::lemma_magnitudes_ordered(m, nearest_magnitude(p, 1));
    assert(m <= (j - 51) * FRACTION_RANGE < INFINITY_BITS);
    assert(rounded(false, n, d).magnitude() == m);
}

/// A finite amount stays finite when another is added to it that is less than half of the last bit of
/// the greatest finite number.
pub proof fn lemma_small_summand(x: Double, y: Double)
    requires
        is_amount(x),
        is_amount(y),
        x.spec_is_finite(),
        y.spec_is_finite(),
        2 * x.value() < pow2(2045),
    ensures
        sum(x, y).spec_is_finite(),
{
    let c = pow2(2045);
    let top = (INFINITY_BITS - 1) as nat;
    let v = x.value() + y.value();
    if v > 0 {
        lemma2_to64();
        lemma2_to64_rest();
        lemma_pow2_pos(2045);
        lemma_pow2_adds(53, 2045);
        lemma_pow2_adds(52, 2045);
        assert(magnitude_value(top) == 0x1f_ffff_ffff_ffff * c);
        crate::double::lemma_magnitudes_ordered(y.magnitude(), top);
        let b = (magnitude_value(top) + x.value()) as nat;
        assert(is_quantum(b, 1, 2045));
        let chosen = choose|l: nat| is_quantum(b, 1, l);
        lemma_quantum_unique(b, 1, 2045, chosen);
        assert(1 * c == c);
        lemma_fundamental_div_mod_converse(
            b as int,
            c as int,
            0x1f_ffff_ffff_ffff,
            x.value(),
        );
        assert(nearest_magnitude(b, 1) == top);
        lemma_magnitude_monotone(v as nat, b, 1);
        lemma_rounded_sign(v as nat, 1);
        assert(sum(x, y).magnitude() == nearest_magnitude(v as nat, 1));
    }
}

/// A finite number minus itself is zero.
pub proof fn law_difference_with_itself(x: Double)
    requires
        x.spec_is_finite(),
    ensures
        difference(x, x) == (Double { bits: 0 }),
{
    let y = negated(x);
    assert(y.magnitude() == x.magnitude());
    assert(y.negative_sign() != x.negative_sign());
    assert(x.value() + y.value() == 0);
}

/// A whole number of at most fifty-three bits can be held as it is.
pub proof fn law_whole_is_exact(n: nat)
    requires
        n < pow2(53),
    ensures
        of_whole(n).value() == n * unit(),
        of_whole(n).spec_is_finite(),
        !of_whole(n).negative_sign(),
{
    let u = unit();
    let exact = n * u;
    lemma2_to64();
    lemma2_to64_rest();
    law_whole_is_amount(n);
    lemma_rounded_sign(exact, 1);
    assert(of_whole(n).magnitude() == nearest_magnitude(exact, 1));
    let k = lemma_magnitude_is_near(exact, 1);
    assert(1 * pow2(k) == pow2(k));
    if k > 1074 {
        lemma_pow2_adds(53, 1074);
        if 52 + k > 1127 {
            lemma_pow2_strictly_increases(1127, 52 + k);
        }
        lemma_pow2_pos(1074);
        assert(exact < pow2(53) * u) by (nonlinear_arith)
            requires
                exact == n * u,
                n < pow2(53),
                u > 0,
        ;
        assert(false);
    }
    let p = pow2(k);
    lemma_pow2_pos(k);
    lemma_pow2_adds(k, (1074 - k) as nat);
    let r = pow2((1074 - k) as nat);
    assert(exact == (n * r) * p) by (nonlinear_arith)
        requires
            exact == n * u,
            u == p * r,
    ;
    lemma_mod_multiples_basic((n * r) as int, p as int);
}

/// The product of two finite numbers is the nearest that can be held: unless it is tiny or too
/// great, it is off by no more than the exact product divided by two to the power of fifty-three, and
/// is negative exactly when one of the two is.
pub proof fn law_product_is_near(x: Double, y: Double)
    requires
        x.spec_is_finite(),
        y.spec_is_finite(),
        product(x, y).spec_is_finite(),
        size(x) * size(y) >= unit() * pow2(52),
    ensures
        ({
            let exact = size(x) * size(y);
            let got = unit() * size(product(x, y));
            &&& pow2(53) * (got - exact) <= exact
            &&& pow2(53) * (exact - got) <= exact
            &&& product(x, y).negative_sign() <==> x.negative_sign() != y.negative_sign()
        }),
{
    lemma_pow2_pos(1074);
    lemma_rounded_sign(size(x) * size(y), unit());
    let negative = x.negative_sign() != y.negative_sign();
    assert(product(x, y).magnitude() == nearest_magnitude(size(x) * size(y), unit()));
    law_rounding_is_near(size(x) * size(y), unit());
}

/// The quotient of two finite numbers, of which the second is not zero, is the nearest that can be
/// held: unless it is tiny or too great, it is off by no more than the exact quotient divided by two
/// to the power of fifty-three, and is negative exactly when one of the two is.
pub proof fn law_quotient_is_near(x: Double, y: Double)
    requires
        x.spec_is_finite(),
        y.spec_is_finite(),
        y.magnitude() > 0,
        quotient(x, y).spec_is_finite(),
        size(x) * unit() >= size(y) * pow2(52),
    ensures
        ({
            let exact = size(x) * unit();
            let got = size(y) * size(quotient(x, y));
            &&& pow2(53) * (got - exact) <= exact
            &&& pow2(53) * (exact - got) <= exact
            &&& quotient(x, y).negative_sign() <==> x.negative_sign() != y.negative_sign()
        }),
{
    crate::double::lemma_magnitudes_ordered(0, y.magnitude());
    lemma_rounded_sign(size(x) * unit(), size(y));
    assert(quotient(x, y).magnitude() == nearest_magnitude(size(x) * unit(), size(y)));
    law_rounding_is_near(size(x) * unit(), size(y));
}

/// The sum of two finite numbers is the nearest that can be held: unless it is too great, it is off
/// by no more than the exact sum divided by two to the power of fifty-three.
pub proof fn law_sum_is_near(x: Double, y: Double)
    requires
        x.spec_is_finite(),
        y.spec_is_finite(),
        sum(x, y).spec_is_finite(),
    ensures
        ({
            let exact = x.value() + y.value();
            let off = sum(x, y).value() - exact;
            &&& pow2(53) * off <= exact || pow2(53) * off <= -exact
            &&& pow2(53) * (-off) <= exact || pow2(53) * (-off) <= -exact
        }),
{
    let v = x.value() + y.value();
    lemma2_to64();
    lemma2_to64_rest();
    lemma_pow2_pos(53);
    if v != 0 {
        let n = if v > 0 {
            v as nat
        } else {
            (-v) as nat
        };
        lemma_rounded_sign(n, 1);
        assert(sum(x, y).magnitude() == nearest_magnitude(n, 1));
        assert(sum(x, y).negative_sign() <==> v < 0);
        if n >= pow2(52) {
            assert(1 * pow2(52) == pow2(52));
            law_rounding_is_near(n, 1);
        } else {
            let k = lemma_magnitude_is_near(n, 1);
            if k > 0 {
                if 52 + k > 52 {
                    lemma_pow2_strictly_increases(52, 52 + k);
                }
            }
            assert(1 * pow2(k) == 1);
        }
    }
}

/// The least whole number that is not below an amount.
pub proof fn law_ceiling_is_least(d: Double)
    requires
        is_amount(d),
        d.value() <= u64::MAX * unit(),
    ensures
        d.value() <= ceiling(d) * unit(),
        ceiling(d) > 0 ==> (ceiling(d) - 1) * unit() < d.value(),
        ceiling(d) >= 0,
{
    let u = unit() as int;
    let v = d.value();
    lemma_pow2_pos(1074);
    lemma_fundamental_div_mod(v, u);
    lemma_mod_bound(v, u);
    let q = v / u;
    assert(u * q == q * u && (q + 1) * u == q * u + u && (q - 1) * u == q * u - u)
        by (nonlinear_arith);
    lemma_div_pos_is_pos(v, u);
    assert(q <= u64::MAX && (v % u > 0 ==> q < u64::MAX)) by (nonlinear_arith)
        requires
            v == u * q + v % u,
            v <= u64::MAX * u,
            v % u >= 0,
            u > 0,
    ;
}

/// The whole number nearest to a number, which lies no more than half of one away from it.
pub proof fn law_nearest_whole_is_nearest(d: Double)
    requires
        !d.spec_is_nan(),
        size(d) <= i64::MAX * unit(),
    ensures
        2 * (nearest_whole(d) * unit() - d.value()) <= unit(),
        2 * (d.value() - nearest_whole(d) * unit()) <= unit(),
{
    let u = unit() as int;
    let v = size(d) as int;
    let away = (2 * v + u) / (2 * u);
    lemma_pow2_pos(1074);
    lemma_fundamental_div_mod(2 * v + u, 2 * u);
    lemma_mod_bound(2 * v + u, 2 * u);
    assert((2 * u) * away == 2 * (away * u)) by (nonlinear_arith);
    assert(-away * u == -(away * u)) by (nonlinear_arith);
    assert(away <= i64::MAX) by (nonlinear_arith)
        requires
            2 * (away * u) <= 2 * v + u,
            v <= i64::MAX * u,
            u > 0,
    ;
}

/// The product of two whole numbers is that of their numbers.
pub proof fn lemma_product_of_wholes(a: nat, b: nat)
    requires
        a < pow2(53),
        b < pow2(53),
    ensures
        product(of_whole(a), of_whole(b)) == of_whole(a * b),
{
    let u = unit();
    lemma_pow2_pos(1074);
    law_whole_is_exact(a);
    law_whole_is_exact(b);
    assert((a * u) * (b * u) == ((a * b) * u) * u) by (nonlinear_arith);
    lemma_magnitude_scales((a * b) * u, 1, u);
    assert(1 * u == u);
}

/// The sum of two whole numbers is that of their numbers.
pub proof fn lemma_sum_of_wholes(a: nat, b: nat)
    requires
        a < pow2(53),
        b < pow2(53),
        a + b < pow2(53),
    ensures
        sum(of_whole(a), of_whole(b)) == of_whole(a + b),
{
    let u = unit();
    lemma_pow2_pos(1074);
    law_whole_is_exact(a);
    law_whole_is_exact(b);
    law_whole_is_exact(a + b);
    assert(a * u + b * u == (a + b) * u) by (nonlinear_arith);
    if a + b == 0 {
        lemma_zero_rounds(1);
        assert(0 * u == 0);
    } else {
        assert((a + b) * u > 0) by (nonlinear_arith)
            requires
                a + b > 0,
                u > 0,
        ;
    }
}

/// The quotient of two whole numbers is the nearest that can be held: times the second, it is off from
/// the first by no more than that divided by two to the power of fifty-three.
pub proof fn law_quotient_of_wholes(a: nat, b: nat)
    requires
        0 < a < pow2(53),
        0 < b < pow2(53),
    ensures
        ({
            let q = quotient(of_whole(a), of_whole(b));
            &&& q.spec_is_finite()
            &&& q.value() > 0
            &&& pow2(53) * (b * q.value() - a * unit()) <= a * unit()
            &&& pow2(53) * (a * unit() - b * q.value()) <= a * unit()
        }),
{
    let u = unit();
    let x = of_whole(a);
    let y = of_whole(b);
    lemma2_to64();
    lemma2_to64_rest();
    lemma_pow2_pos(1074);
    law_whole_is_exact(a);
    law_whole_is_exact(b);
    lemma_pow2_adds(53, 1074);
    lemma_pow2_adds(1, 1073);
    assert(a * u > 0 && b * u > 0) by (nonlinear_arith)
        requires
            a > 0,
            b > 0,
            u > 0,
    ;
    crate::double::lemma_magnitudes_ordered(y.magnitude(), 0);
    let n = size(x) * u;
    let d = size(y);
    lemma_pow2_strictly_increases(106, 1074);
    lemma_pow2_adds(53, 53);
    assert(b * pow2(52) <= u) by (nonlinear_arith)
        requires
            b < pow2(53),
            pow2(52) < pow2(53),
            pow2(53) * pow2(53) <= u,
    ;
    assert(n >= d * pow2(52)) by (nonlinear_arith)
        requires
            n == (a * u) * u,
            d == b * u,
            b * pow2(52) <= u,
            a >= 1,
            u > 0,
    ;
    assert(n <= d * pow2(1127)) by (nonlinear_arith)
        requires
            n == (a * u) * u,
            d == b * u,
            a < pow2(53),
            b >= 1,
            pow2(1127) == pow2(53) * u,
            u > 0,
    ;
    lemma_rounds_below_power(n, d, 1127);
    law_quotient_is_near(x, y);
    let v = size(quotient(x, y));
    let p = pow2(53) as int;
    assert(p * (d * v - n) == p * ((b * v - a * u) * u)) by (nonlinear_arith)
        requires
            n == (a * u) * u,
            d == b * u,
    ;
    assert(p * (b * v - a * u) <= a * u && p * (a * u - b * v) <= a * u) by (nonlinear_arith)
        requires
            p * ((b * v - a * u) * u) <= (a * u) * u,
            -(p * ((b * v - a * u) * u)) <= (a * u) * u,
            u > 0,
    ;
    assert(v > 0) by (nonlinear_arith)
        requires
            p * (a * u - b * v) <= a * u,
            a * u > 0,
            p > 1,
            v >= 0,
    ;
}

/// A number times a whole number over another, each step rounded, is the exact value to within three
/// times the precision of a double.
pub proof fn law_scaling_is_near(x: Double, a: nat, b: nat)
    requires
        x.spec_is_finite(),
        x.value() == 0 || pow2(1000) <= x.value() <= pow2(1138),
        0 < a <= i32::MAX,
        0 < b <= i32::MAX,
    ensures
        ({
            let q = quotient(product(x, of_whole(a)), of_whole(b));
            &&& q.spec_is_finite()
            &&& q.value() >= 0
            &&& q.value() <= pow2(1171)
            &&& pow2(53) * (b * q.value() - a * x.value()) <= 3 * (a * x.value())
            &&& pow2(53) * (a * x.value() - b * q.value()) <= 3 * (a * x.value())
        }),
{
    let u = unit();
    let ya = of_whole(a);
    let yb = of_whole(b);
    let w = size(x);
    let n = w * size(ya);
    let p = product(x, ya);
    let t = pow2(53) as int;
    lemma2_to64();
    lemma2_to64_rest();
    lemma_pow2_pos(1074);
    law_whole_is_exact(a);
    law_whole_is_exact(b);
    assert(a * u > 0 && b * u > 0) by (nonlinear_arith)
        requires
            a > 0,
            b > 0,
            u > 0,
    ;
    crate::double::lemma_magnitudes_ordered(yb.magnitude(), 0);
    if w == 0 {
        crate::double::lemma_magnitudes_ordered(x.magnitude(), 0);
        lemma_zero_rounds(u);
        assert(n == 0) by (nonlinear_arith)
            requires
                n == w * size(ya),
                w == 0,
        ;
        lemma_zero_rounds(size(yb));
        assert(p.magnitude() == 0);
        assert(size(p) * u == 0) by (nonlinear_arith)
            requires
                size(p) == 0,
        ;
        let q = quotient(p, yb);
        assert(q.value() == 0);
        assert(a * x.value() == 0) by (nonlinear_arith)
            requires
                x.value() == 0,
        ;
        assert(b * q.value() == 0) by (nonlinear_arith)
            requires
                q.value() == 0,
        ;
        assert(t * 0 == 0);
    } else {
        let m = a * w;
        lemma_pow2_adds(32, 1138);
        lemma_pow2_unfold(1171);
        lemma_pow2_strictly_increases(52, 1000);
        assert(n == u * m) by (nonlinear_arith)
            requires
                n == w * (a * u),
                m == a * w,
        ;
        assert(w <= m && m <= pow2(1170)) by (nonlinear_arith)
            requires
                m == a * w,
                1 <= a <= 0x1_0000_0000,
                w <= pow2(1138),
                pow2(1170) == 0x1_0000_0000 * pow2(1138),
        ;
        assert(n >= u * pow2(52) && n <= u * pow2(1170)) by (nonlinear_arith)
            requires
                n == u * m,
                pow2(52) <= m <= pow2(1170),
        ;
        lemma_rounds_below_power(n, u, 1170);
        law_product_is_near(x, ya);
        let v = size(p);
        assert(t * (v - m) <= m && t * (m - v) <= m) by (nonlinear_arith)
            requires
                t * (u * v - n) <= n,
                t * (n - u * v) <= n,
                n == u * m,
                u > 0,
        ;
        assert(2 * v >= m) by (nonlinear_arith)
            requires
                t * (m - v) <= m,
                t >= 2,
                m >= 0,
                v >= 0,
        ;
        assert(v <= 2 * m) by (nonlinear_arith)
            requires
                t * (v - m) <= m,
                t >= 1,
                m >= 0,
        ;
        lemma_pow2_unfold(1000);
        lemma_pow2_adds(84, 915);
        lemma_pow2_pos(915);
        assert(pow2(84) >= 0x8000_0000 * pow2(52)) by {
            lemma_pow2_adds(32, 52);
        }
        assert(pow2(999) >= pow2(84)) by {
            lemma_pow2_strictly_increases(84, 999);
        }
        assert(v >= b * pow2(52)) by (nonlinear_arith)
            requires
                v >= pow2(999),
                pow2(999) >= pow2(84),
                pow2(84) >= 0x8000_0000 * pow2(52),
                b <= 0x8000_0000,
        ;
        let d = size(yb);
        assert(v * u >= d * pow2(52)) by (nonlinear_arith)
            requires
                d == b * u,
                v >= b * pow2(52),
        ;
        assert(v * u <= d * pow2(1171)) by (nonlinear_arith)
            requires
                d == b * u,
                v <= pow2(1171),
                b >= 1,
        ;
        lemma_rounds_below_power(v * u, d, 1171);
        law_quotient_is_near(p, yb);
        let q = size(quotient(p, yb));
        assert(t * (b * q - v) <= v && t * (v - b * q) <= v) by (nonlinear_arith)
            requires
                t * (d * q - v * u) <= v * u,
                t * (v * u - d * q) <= v * u,
                d == b * u,
                u > 0,
        ;
        assert(t * (b * q - m) == t * (b * q - v) + t * (v - m)) by (nonlinear_arith);
        assert(t * (m - b * q) == t * (v - b * q) + t * (m - v)) by (nonlinear_arith);
    }
}

/// A rounded number and its opposite differ in their sign alone.
proof fn lemma_rounded_opposites(n: nat, d: nat)
    requires
        d > 0,
        rounded(false, n, d).spec_is_finite(),
    ensures
        rounded(true, n, d).magnitude() == rounded(false, n, d).magnitude(),
        rounded(true, n, d).negative_sign(),
        !rounded(false, n, d).negative_sign(),
        rounded(true, n, d).spec_is_finite(),
{
    lemma_rounded_sign(n, d);
}

/// The opposite of a number times and over whole numbers is the opposite of the result.
pub proof fn law_scaling_is_odd(n: nat, a: nat, b: nat)
    requires
        0 < n < pow2(53),
        0 < a <= i32::MAX,
        0 < b <= i32::MAX,
    ensures
        ({
            let q = quotient(product(of_signed(n as int), of_whole(a)), of_whole(b));
            let r = quotient(product(of_signed(-n), of_whole(a)), of_whole(b));
            &&& r.value() == -q.value()
            &&& r.spec_is_finite() && q.spec_is_finite()
        }),
{
    let u = unit();
    let x = of_whole(n);
    let y = of_whole(a);
    let z = of_whole(b);
    lemma2_to64();
    lemma2_to64_rest();
    lemma_pow2_pos(1074);
    law_whole_is_exact(n);
    law_whole_is_exact(a);
    law_whole_is_exact(b);
    lemma_rounded_opposites(n * u, 1);
    lemma_pow2_adds(53, 1074);
    lemma_pow2_strictly_increases(1000, 1074);
    lemma_pow2_strictly_increases(1127, 1138);
    assert(n * u >= u && n * u <= pow2(53) * u && b * u > 0) by (nonlinear_arith)
        requires
            1 <= n <= pow2(53),
            b > 0,
            u > 0,
    ;
    law_scaling_is_near(x, a, b);
    crate::double::lemma_magnitudes_ordered(z.magnitude(), 0);
    lemma_pow2_adds(32, 1138);
    let e = size(x) * size(y);
    assert(e <= u * pow2(1170)) by (nonlinear_arith)
        requires
            e == size(x) * (a * u),
            size(x) <= pow2(1138),
            a <= 0x1_0000_0000,
            pow2(1170) == 0x1_0000_0000 * pow2(1138),
    ;
    lemma_rounds_below_power(e, u, 1170);
    lemma_rounded_opposites(e, u);
    let p = product(x, y);
    assert(p == rounded(false, e, u));
    assert(product(negated(x), y) == rounded(true, e, u));
    lemma_rounded_opposites(size(p) * u, size(z));
}

/// Truncation gives the greatest whole number that is not above.
pub proof fn law_truncation_is_floor(d: Double)
    requires
        is_amount(d),
        d.value() <= u64::MAX * unit(),
    ensures
        truncated(d) >= 0,
        truncated(d) * unit() <= d.value(),
        d.value() < (truncated(d) + 1) * unit(),
{
    let u = unit() as int;
    lemma_pow2_pos(1074);
    if d.value() == 0 {
        assert(0 * u == 0);
    } else {
        let n = d.value() / u;
        lemma_fundamental_div_mod(d.value(), u);
        assert(u * n == n * u) by (nonlinear_arith);
        assert((n + 1) * u == n * u + u) by (nonlinear_arith);
        assert(0 <= n && n <= u64::MAX) by (nonlinear_arith)
            requires
                d.value() == n * u + d.value() % u,
                0 <= d.value() % u < u,
                0 <= d.value() <= u64::MAX * u,
        ;
    }
}

} // verus!
