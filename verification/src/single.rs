//! Single-precision numbers, held in double precision, which has room for all of them.

use crate::arith::{
    law_quotient_is_near, lemma_exact_brackets, lemma_rounded_sign, lemma_rounds_below_power, product,
    quotient, rounded, signed, size,
};
use crate::double::{unit, Double, INFINITY_BITS, SIGN_BIT};
use crate::rounding::{
    law_rounding_is_near, lemma_nearest_bound, nearest, nearest_magnitude, power_of_two, round_bits,
};
use vstd::arithmetic::div_mod::*;
use vstd::arithmetic::power2::*;
use vstd::prelude::*;

verus! {

/// Rounding to a multiple of `2^k`, in units of the smallest positive number of double precision,
/// leaves `n` no more than the 24 bits that single precision has, and uses them all unless `k` is
/// the least there is.
pub open spec fn is_single_quantum(n: nat, k: nat) -> bool {
    &&& k >= 925
    &&& n < pow2(24 + k)
    &&& k == 925 || n >= pow2(23 + k)
}

/// The multiple of a power of two that `n` rounds to in single precision.
pub open spec fn nearest_single(n: nat) -> nat {
    let k = choose|k: nat| is_single_quantum(n, k);
    (nearest(n as int, pow2(k) as int) * pow2(k)) as nat
}

/// The single-precision number nearest to `n` units, with a given sign; what rounds to 2^128 or more
/// is infinite.
pub open spec fn single_of(negative: bool, n: nat) -> Double {
    if nearest_single(n) >= pow2(1202) {
        signed(negative, INFINITY_BITS as nat)
    } else {
        rounded(negative, nearest_single(n), 1)
    }
}

/// The single-precision number nearest to a number.
pub open spec fn single(d: Double) -> Double {
    if d.magnitude() >= INFINITY_BITS {
        d
    } else {
        single_of(d.negative_sign(), size(d))
    }
}

/// The single-precision number nearest to a whole one.
pub open spec fn single_of_whole(n: nat) -> Double {
    single_of(false, n * unit())
}

/// The single-precision number nearest to a whole one that may be negative.
pub open spec fn single_of_signed(n: int) -> Double {
    if n < 0 {
        single_of(true, (-n) as nat * unit())
    } else {
        single_of(false, n as nat * unit())
    }
}

/// There is only one such multiple.
proof fn lemma_single_quantum_unique(n: nat, k: nat, l: nat)
    requires
        is_single_quantum(n, k),
        is_single_quantum(n, l),
    ensures
        k == l,
{
    if k < l && 24 + k < 23 + l {
        lemma_pow2_strictly_increases(24 + k, 23 + l);
    }
    if l < k && 24 + l < 23 + k {
        lemma_pow2_strictly_increases(24 + l, 23 + k);
    }
}

/// The single-precision number nearest to `m * 2^e` units, with a given sign.
fn to_single(negative: bool, m: u64, e: u64, Ghost(n): Ghost<nat>) -> (d: Double)
    requires
        e <= 2045,
        n == m * pow2(e as nat),
    ensures
        d == single_of(negative, n),
{
    let start: u64 = if e > 948 {
        e - 23
    } else {
        925
    };
    proof {
        lemma2_to64();
        lemma2_to64_rest();
        lemma_pow2_pos(e as nat);
    }
    if m == 0 {
        proof {
            lemma_pow2_pos(949);
            let c = pow2(e as nat);
            assert(0 * c == 0) by (nonlinear_arith);
            assert(is_single_quantum(0, 925));
            let chosen = choose|k: nat| is_single_quantum(0, k);
            lemma_single_quantum_unique(0, 925, chosen);
            lemma_pow2_pos(925);
            crate::rounding::lemma_nearest_zero(0, pow2(925) as int);
            assert(0 * pow2(925) == 0) by (nonlinear_arith);
            lemma_pow2_pos(1202);
            crate::arith::lemma_zero_rounds(1);
        }
        return if negative {
            Double { bits: SIGN_BIT }
        } else {
            Double { bits: 0 }
        };
    }
    let mut k: u64 = start;
    while !below_power(m, e, 24 + k)
        invariant
            m > 0,
            e <= 2045,
            start <= k <= 2120,
            start == if e > 948 {
                (e - 23) as int
            } else {
                925
            },
            k > start ==> m * pow2(e as nat) >= pow2((23 + k) as nat),
        decreases 2120 - k,
    {
        proof {
            lemma_below_top(m as nat, e as nat, (24 + k) as nat);
        }
        k = k + 1;
    }
    proof {
        if k > 925 && k == start {
            let c = pow2(e as nat);
            assert(23 + k == e);
            assert(m * c >= c) by (nonlinear_arith)
                requires
                    m >= 1,
                    c > 0,
            ;
        }
        assert(is_single_quantum(n, k as nat));
        let chosen = choose|l: nat| is_single_quantum(n, l);
        lemma_single_quantum_unique(n, k as nat, chosen);
    }
    let q: u64 = nearest_shifted(m, e, k);
    let ghost r = nearest_single(n);
    proof {
        assert(r == q * pow2(k as nat));
    }
    if k > 2000 || !below_power(q, k, 1202) {
        proof {
            if k > 2000 {
                lemma_single_huge(n, q as nat, k as nat);
            }
        }
        return if negative {
            Double { bits: INFINITY_BITS + SIGN_BIT }
        } else {
            Double { bits: INFINITY_BITS }
        };
    }
    proof {
        let c = pow2(k as nat);
        assert(1 * c == c);
        assert(q * c == c * q) by (nonlinear_arith);
        lemma_exact_brackets(r, 1, q as nat, k as int);
    }
    let bits: u64 = round_bits(q as u128, k as i64, false, Ghost(r), Ghost(1));
    if negative {
        Double { bits: bits + SIGN_BIT }
    } else {
        Double { bits }
    }
}

/// Whether `m * 2^e < 2^t`.
fn below_power(m: u64, e: u64, t: u64) -> (b: bool)
    requires
        e <= 3000,
        t <= 3000,
    ensures
        b == (m * pow2(e as nat) < pow2(t as nat)),
{
    proof {
        lemma_pow2_pos(e as nat);
        lemma2_to64();
        lemma2_to64_rest();
    }
    if m == 0 {
        proof {
            let c = pow2(e as nat);
            assert(0 * c == 0) by (nonlinear_arith);
            lemma_pow2_pos(t as nat);
        }
        return true;
    }
    if t <= e {
        proof {
            if t < e {
                lemma_pow2_strictly_increases(t as nat, e as nat);
            }
            let c = pow2(e as nat);
            assert(m * c >= c) by (nonlinear_arith)
                requires
                    m >= 1,
                    c > 0,
            ;
        }
        return false;
    }
    let gap: u64 = t - e;
    proof {
        let c = pow2(e as nat);
        let g = pow2(gap as nat);
        lemma_pow2_adds(gap as nat, e as nat);
        assert(m * c < g * c <==> m < g) by (nonlinear_arith)
            requires
                c > 0,
        ;
    }
    if gap > 64 {
        proof {
            lemma_pow2_strictly_increases(64, gap as nat);
        }
        return true;
    }
    let p: u128 = power_of_two(gap);
    (m as u128) < p
}

/// A significand of 64 bits does not reach a power of two that is 64 above its exponent.
proof fn lemma_below_top(m: nat, e: nat, t: nat)
    requires
        m <= u64::MAX,
        m * pow2(e) >= pow2(t),
    ensures
        t < 64 + e,
{
    lemma2_to64();
    lemma2_to64_rest();
    let c = pow2(e);
    lemma_pow2_pos(e);
    lemma_pow2_adds(64, e);
    if t >= 64 + e {
        if t > 64 + e {
            lemma_pow2_strictly_increases(64 + e, t);
        }
        assert(m * c < 0x1_0000_0000_0000_0000 * c) by (nonlinear_arith)
            requires
                m < 0x1_0000_0000_0000_0000,
                c > 0,
        ;
    }
}

/// What needs so great a multiple is infinite.
proof fn lemma_single_huge(n: nat, q: nat, k: nat)
    requires
        k > 2000,
        is_single_quantum(n, k),
        q == nearest(n as int, pow2(k) as int),
    ensures
        q * pow2(k) >= pow2(1202),
{
    let c = pow2(k);
    lemma_pow2_pos(k);
    lemma_pow2_adds(23, k);
    lemma2_to64();
    lemma_pow2_strictly_increases(1202, k);
    lemma_fundamental_div_mod(n as int, c as int);
    let d = n as int / c as int;
    let r = n as int % c as int;
    assert(d >= 1) by (nonlinear_arith)
        requires
            n == c * d + r,
            n >= 0x80_0000 * c,
            0 <= r < c,
            c > 0,
    ;
    assert(q * c >= c) by (nonlinear_arith)
        requires
            q >= 1,
            c > 0,
    ;
}

/// The whole number nearest to `m * 2^e / 2^k`.
fn nearest_shifted(m: u64, e: u64, k: u64) -> (q: u64)
    requires
        e <= k + 23,
        k <= 2200,
        m * pow2(e as nat) < pow2((24 + k) as nat),
    ensures
        q == nearest((m * pow2(e as nat)) as int, pow2(k as nat) as int),
        q <= 0x100_0000,
{
    let ghost n = (m * pow2(e as nat)) as int;
    let ghost c = pow2(k as nat) as int;
    proof {
        lemma2_to64();
        lemma2_to64_rest();
        lemma_pow2_pos(k as nat);
        lemma_pow2_pos(e as nat);
        lemma_pow2_adds(24, k as nat);
        lemma_nearest_bound(n, c, 0x100_0000);
    }
    if e >= k {
        let p: u128 = power_of_two(e - k);
        proof {
            lemma_pow2_adds((e - k) as nat, k as nat);
            let g = p as int;
            let whole = m * g;
            assert(n == whole * c) by (nonlinear_arith)
                requires
                    n == m * (g * c),
                    whole == m * g,
            ;
            lemma_fundamental_div_mod_converse(n, c, whole, 0);
            if e - k < 23 {
                lemma_pow2_strictly_increases((e - k) as nat, 23);
            }
            assert(whole < 0x100_0000) by (nonlinear_arith)
                requires
                    n == whole * c,
                    n < 0x100_0000 * c,
                    c > 0,
            ;
            assert(m * p == whole);
            assert(m * p <= u64::MAX * 0x80_0000) by (nonlinear_arith)
                requires
                    m <= u64::MAX,
                    p <= 0x80_0000,
            ;
        }
        (m as u128 * p) as u64
    } else {
        let gap: u64 = k - e;
        if gap > 66 {
            proof {
                let h = pow2(e as nat) as int;
                let g = pow2(gap as nat) as int;
                lemma_pow2_adds(gap as nat, e as nat);
                lemma_pow2_strictly_increases(66, gap as nat);
                lemma_pow2_adds(64, 2);
                assert(2 * n < c) by (nonlinear_arith)
                    requires
                        n == m * h,
                        c == g * h,
                        m <= u64::MAX,
                        g > 0x4_0000_0000_0000_0000,
                        h > 0,
                ;
                crate::rounding::lemma_nearest_zero(n, c);
            }
            return 0;
        }
        let p: u128 = power_of_two(gap);
        proof {
            let h = pow2(e as nat) as int;
            let g = p as int;
            lemma_pow2_adds(gap as nat, e as nat);
            lemma_pow2_pos(gap as nat);
            crate::rounding::lemma_nearest_scales(m as int, g, h);
        }
        let q: u128 = m as u128 / p;
        let r: u128 = m as u128 % p;
        assert(q <= m) by (nonlinear_arith)
            requires
                q == m as u128 / p,
                p >= 1,
        ;
        if r < p - r || (r == p - r && q % 2 == 0) {
            q as u64
        } else {
            (q + 1) as u64
        }
    }
}

impl Double {
    /// The single-precision number nearest to this.
    pub fn to_single(self) -> (d: Double)
        ensures
            d == single(self),
    {
        let x: u64 = self.exec_magnitude();
        if x >= INFINITY_BITS {
            return self;
        }
        let (s, a) = crate::arith::parts(x);
        to_single(self.bits >= SIGN_BIT, s, a, Ghost(size(self)))
    }

    /// The single-precision number nearest to a whole one.
    pub fn single_from_u64(n: u64) -> (d: Double)
        ensures
            d == single_of_whole(n as nat),
    {
        to_single(false, n, 1074, Ghost((n * unit()) as nat))
    }

    /// The single-precision number nearest to a whole one that may be negative.
    pub fn single_from_i64(n: i64) -> (d: Double)
        ensures
            d == single_of_signed(n as int),
    {
        if n < 0 {
            let size: u64 = if n == i64::MIN {
                0x8000_0000_0000_0000
            } else {
                (-n) as u64
            };
            to_single(true, size, 1074, Ghost((size * unit()) as nat))
        } else {
            to_single(false, n as u64, 1074, Ghost((n * unit()) as nat))
        }
    }

    /// The single-precision product of two single-precision numbers.
    pub fn times_single(self, other: Double) -> (d: Double)
        ensures
            d == single(product(self, other)),
    {
        self.times(other).to_single()
    }

    /// The single-precision quotient of two single-precision numbers.
    pub fn over_single(self, other: Double) -> (d: Double)
        ensures
            d == single(quotient(self, other)),
    {
        self.over(other).to_single()
    }
}

/// A number in single precision is the given one to within half a part in 2^24, where it is not
/// below the least normal one.
pub proof fn law_single_is_near(n: nat)
    requires
        n >= pow2(948),
    ensures
        pow2(24) * (nearest_single(n) - n) <= n,
        pow2(24) * (n - nearest_single(n)) <= n,
{
    lemma_single_quantum_exists(n);
    let k = choose|k: nat| is_single_quantum(n, k);
    let p = pow2(k) as int;
    lemma_pow2_pos(k);
    let m = nearest(n as int, p);
    lemma2_to64();
    lemma_pow2_adds(23, k);
    lemma_nearest_halves(n as int, p);
    assert(n >= 0x80_0000 * p) by {
        if k == 925 {
            lemma_pow2_adds(23, 925);
        }
    }
    let got = m * p;
    assert(2 * (got - n) <= p && 2 * (n - got) <= p);
    assert(0x100_0000 * (got - n) <= n && 0x100_0000 * (n - got) <= n) by (nonlinear_arith)
        requires
            2 * (got - n) <= p,
            2 * (n - got) <= p,
            n >= 0x80_0000 * p,
    ;
    assert(got >= 0) by (nonlinear_arith)
        requires
            0x100_0000 * (n - got) <= n,
            n >= 0,
    ;
    assert(nearest_single(n) == got);
}

/// The nearest whole number of parts is off by half of one at most.
proof fn lemma_nearest_halves(n: int, d: int)
    requires
        n >= 0,
        d > 0,
    ensures
        2 * (nearest(n, d) * d - n) <= d,
        2 * (n - nearest(n, d) * d) <= d,
{
    lemma_fundamental_div_mod(n, d);
    let q = n / d;
    assert(d * q == q * d && (q + 1) * d == q * d + d) by (nonlinear_arith);
}

/// Every number has a place in single precision.
proof fn lemma_single_quantum_exists(n: nat)
    ensures
        exists|k: nat| is_single_quantum(n, k),
{
    if n < pow2(949) {
        assert(is_single_quantum(n, 925));
    } else {
        lemma_single_quantum_above(n, 926);
    }
}

proof fn lemma_single_quantum_above(n: nat, k: nat)
    requires
        k >= 926,
        n >= pow2(23 + k),
    ensures
        exists|j: nat| is_single_quantum(n, j),
    decreases n - pow2(23 + k),
{
    if n < pow2(24 + k) {
        assert(is_single_quantum(n, k));
    } else {
        lemma_pow2_strictly_increases(23 + k, 24 + k);
        lemma_single_quantum_above(n, k + 1);
    }
}

/// Rounding to single precision moves a number by no more than one part in 2^23.
proof fn lemma_single_of_near(n: nat)
    requires
        pow2(948) <= n <= pow2(1200),
    ensures
        single_of(false, n).spec_is_finite(),
        single_of(false, n).value() >= 0,
        0x80_0000 * (single_of(false, n).value() - n) <= n,
        0x80_0000 * (n - single_of(false, n).value()) <= n,
        single_of(false, n).value() <= 2 * n,
        2 * single_of(false, n).value() >= n,
{
    let m = nearest_single(n);
    let x = single_of(false, n);
    lemma2_to64();
    lemma2_to64_rest();
    law_single_is_near(n);
    assert(0x100_0000 * (m - n) <= n && 0x100_0000 * (n - m) <= n);
    lemma_pow2_unfold(1201);
    lemma_pow2_unfold(1202);
    lemma_pow2_pos(1200);
    lemma_pow2_strictly_increases(53, 947);
    lemma_pow2_unfold(948);
    assert(m <= 1 * pow2(1201));
    lemma_rounds_below_power(m, 1, 1201);
    lemma_rounded_sign(m, 1);
    assert(nearest_magnitude(m, 1) < INFINITY_BITS);
    law_rounding_is_near(m, 1);
    assert(x == rounded(false, m, 1));
    let v = size(x) as int;
    assert(x.value() == v);
    assert(pow2(53) * (v - m) <= m && pow2(53) * (m - v) <= m);
}

/// The quotient of two numbers in single precision is that of the numbers, to within one part in
/// 2^20.
pub proof fn law_single_ratio_is_near(a: nat, b: nat)
    requires
        pow2(1040) <= a <= pow2(1138),
        pow2(1040) <= b <= pow2(1138),
    ensures
        ({
            let ratio = single(quotient(single_of(false, a), single_of(false, b)));
            &&& ratio.spec_is_finite()
            &&& ratio.value() > 0
            &&& 0x10_0000 * (ratio.value() * b - a * unit()) <= a * unit()
            &&& 0x10_0000 * (a * unit() - ratio.value() * b) <= a * unit()
        }),
{
    let u = unit() as int;
    let t = pow2(53) as int;
    let x = single_of(false, a);
    let y = single_of(false, b);
    let q = quotient(x, y);
    lemma2_to64();
    lemma2_to64_rest();
    lemma_pow2_pos(1074);
    lemma_pow2_strictly_increases(948, 1040);
    lemma_pow2_strictly_increases(1138, 1200);
    lemma_single_of_near(a);
    lemma_single_of_near(b);
    lemma_pow2_unfold(1040);
    lemma_pow2_unfold(1139);
    lemma_pow2_pos(1039);
    let xv = x.value();
    let yv = y.value();
    assert(pow2(1039) <= xv && xv <= pow2(1139));
    assert(pow2(1039) <= yv && yv <= pow2(1139));
    crate::double::lemma_magnitudes_ordered(y.magnitude(), 0);
    let n = size(x) * unit();
    assert(n == xv * u);
    lemma_pow2_adds(1139, 974);
    lemma_pow2_adds(1039, 1074);
    lemma_pow2_adds(1139, 1074);
    lemma_pow2_adds(1039, 1174);
    assert(n >= yv * pow2(974) && n <= yv * pow2(1174)) by (nonlinear_arith)
        requires
            n == xv * u,
            u == pow2(1074),
            pow2(1039) <= xv <= pow2(1139),
            pow2(1039) <= yv <= pow2(1139),
            pow2(1039) * pow2(1074) == pow2(1139) * pow2(974),
            pow2(1139) * pow2(1074) == pow2(1039) * pow2(1174),
    ;
    lemma_pow2_strictly_increases(52, 974);
    assert(n >= yv * pow2(52)) by (nonlinear_arith)
        requires
            n >= yv * pow2(974),
            pow2(974) >= pow2(52),
            yv >= 0,
    ;
    lemma_rounds_below_power(n, yv as nat, 1174);
    law_quotient_is_near(x, y);
    let w = q.value();
    lemma_pow2_unfold(974);
    lemma_pow2_strictly_increases(948, 973);
    lemma_pow2_strictly_increases(1174, 1200);
    assert(w >= pow2(973)) by (nonlinear_arith)
        requires
            t * (n - yv * w) <= n,
            n >= yv * pow2(974),
            pow2(974) == 2 * pow2(973),
            t >= 2,
            yv > 0,
    ;
    lemma_single_of_near(size(q));
    let m = single(q).value();
    lemma_pow2_pos(973);
    lemma_ratio(m, w, xv, yv, a as int, b as int, u, t);
}

/// How the errors of four roundings add up.
proof fn lemma_ratio(m: int, w: int, x: int, y: int, a: int, b: int, u: int, t: int)
    requires
        t == 0x20_0000_0000_0000,
        u > 0,
        a > 0,
        b > 0,
        x > 0,
        y > 0,
        w > 0,
        m > 0,
        0x80_0000 * (x - a) <= a,
        0x80_0000 * (a - x) <= a,
        0x80_0000 * (y - b) <= b,
        0x80_0000 * (b - y) <= b,
        0x80_0000 * (m - w) <= w,
        0x80_0000 * (w - m) <= w,
        t * (y * w - x * u) <= x * u,
        t * (x * u - y * w) <= x * u,
    ensures
        0x10_0000 * (m * b - a * u) <= a * u,
        0x10_0000 * (a * u - m * b) <= a * u,
{
    let c = m * b;
    let d = w * y;
    let f = x * u;
    let g = a * u;
    assert(y * w == d) by (nonlinear_arith)
        requires
            d == w * y,
    ;
    assert(0x7f_ffff * c <= 0x80_0001 * d) by (nonlinear_arith)
        requires
            c == m * b,
            d == w * y,
            0x80_0000 * m <= 0x80_0001 * w,
            0x7f_ffff * b <= 0x80_0000 * y,
            m > 0,
            w > 0,
            b > 0,
            y > 0,
    ;
    assert(0x7f_ffff * d <= 0x80_0001 * c) by (nonlinear_arith)
        requires
            c == m * b,
            d == w * y,
            0x7f_ffff * w <= 0x80_0000 * m,
            0x80_0000 * y <= 0x80_0001 * b,
            m > 0,
            w > 0,
            b > 0,
            y > 0,
    ;
    assert(0x80_0000 * f <= 0x80_0001 * g && 0x7f_ffff * g <= 0x80_0000 * f) by (nonlinear_arith)
        requires
            f == x * u,
            g == a * u,
            0x80_0000 * x <= 0x80_0001 * a,
            0x7f_ffff * a <= 0x80_0000 * x,
            u > 0,
    ;
    assert(g > 0 && f > 0) by (nonlinear_arith)
        requires
            f == x * u,
            g == a * u,
            x > 0,
            a > 0,
            u > 0,
    ;
}

} // verus!
