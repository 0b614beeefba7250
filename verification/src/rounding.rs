//! Rounding of exact quotients, to whole numbers and to double precision.

use crate::double::{magnitude_value, FRACTION_RANGE, INFINITY_BITS};
use vstd::arithmetic::div_mod::*;
use vstd::arithmetic::power2::*;
use vstd::prelude::*;

verus! {

/// The whole number nearest to `n / d`; of two that are equally near, the even one.
pub open spec fn nearest(n: int, d: int) -> int {
    let q = n / d;
    let r = n % d;
    if 2 * r < d || (2 * r == d && q % 2 == 0) {
        q
    } else {
        q + 1
    }
}

/// A common factor does not change what is nearest.
pub proof fn lemma_nearest_scales(n: int, d: int, p: int)
    requires
        d > 0,
        p > 0,
    ensures
        nearest(n * p, d * p) == nearest(n, d),
{
    let q = n / d;
    let r = n % d;
    lemma_fundamental_div_mod(n, d);
    assert(n * p == q * (d * p) + r * p) by (nonlinear_arith)
        requires
            n == d * q + r,
    ;
    assert(0 <= r * p < d * p) by (nonlinear_arith)
        requires
            0 <= r < d,
            p > 0,
    ;
    lemma_fundamental_div_mod_converse(n * p, d * p, q, r * p);
    assert(2 * r < d ==> 2 * (r * p) < d * p) by (nonlinear_arith)
        requires
            p > 0,
    ;
    assert(2 * r > d ==> 2 * (r * p) > d * p) by (nonlinear_arith)
        requires
            p > 0,
    ;
    assert(2 * r == d ==> 2 * (r * p) == d * p) by (nonlinear_arith);
}

/// What is less than half of one is nearest to zero.
pub proof fn lemma_nearest_zero(n: int, d: int)
    requires
        0 <= n,
        2 * n < d,
    ensures
        nearest(n, d) == 0,
{
    lemma_small_mod(n as nat, d as nat);
    lemma_basic_div(n, d);
}

/// Two to the power of `k`.
pub(crate) fn power_of_two(k: u64) -> (p: u128)
    requires
        k <= 126,
    ensures
        p == pow2(k as nat),
{
    let mut p: u128 = 1;
    let mut i: u64 = 0;
    proof {
        lemma2_to64();
        lemma2_to64_rest();
        lemma_pow2_adds(64, 62);
    }
    while i < k
        invariant
            i <= k <= 126,
            p == pow2(i as nat),
            pow2(126) == 0x1_0000_0000_0000_0000 * 0x4000_0000_0000_0000,
        decreases k - i,
    {
        proof {
            lemma_pow2_unfold((i + 1) as nat);
            if i + 1 < 126 {
                lemma_pow2_strictly_increases((i + 1) as nat, 126);
            }
        }
        p = p * 2;
        i += 1;
    }
    p
}

/// Rounding to a multiple of `2^k`, in units of the smallest positive number, leaves `n / d` no more
/// than the 53 bits that double precision has, and uses them all unless `k` is zero.
pub open spec fn is_quantum(n: nat, d: nat, k: nat) -> bool {
    &&& n < d * pow2(53 + k)
    &&& k == 0 || n >= d * pow2(52 + k)
}

/// The pattern, without a sign bit, of the number nearest to `n / d` units of the smallest positive
/// one; of two that are equally near, the one whose last bit is zero. What rounds to more than the
/// greatest finite number is infinite.
pub open spec fn nearest_magnitude(n: nat, d: nat) -> nat {
    let k = choose|k: nat| is_quantum(n, d, k);
    let m = nearest(n as int, (d * pow2(k)) as int) + k * FRACTION_RANGE;
    if m < INFINITY_BITS {
        m as nat
    } else {
        INFINITY_BITS as nat
    }
}

/// There is only one such multiple.
pub proof fn lemma_quantum_unique(n: nat, d: nat, k: nat, l: nat)
    requires
        is_quantum(n, d, k),
        is_quantum(n, d, l),
    ensures
        k == l,
{
    if k < l {
        lemma_quantum_at_most(n, d, l, k);
    } else if l < k {
        lemma_quantum_at_most(n, d, k, l);
    }
}

proof fn lemma_quantum_at_most(n: nat, d: nat, k: nat, l: nat)
    requires
        is_quantum(n, d, k),
        is_quantum(n, d, l),
    ensures
        k <= l,
{
    if k > l {
        if 53 + l < 52 + k {
            lemma_pow2_strictly_increases(53 + l, 52 + k);
        }
        let a = pow2(53 + l);
        let b = pow2(52 + k);
        assert(d * a <= d * b) by (nonlinear_arith)
            requires
                a <= b,
        ;
    }
}

/// `n / d` with its numerator scaled for an exponent `e` below zero.
pub open spec fn scaled_num(n: nat, e: int) -> nat {
    if e < 0 {
        n * pow2((-e) as nat)
    } else {
        n
    }
}

/// `n / d` with its denominator scaled for an exponent `e` from zero on.
pub open spec fn scaled_den(d: nat, e: int) -> nat {
    if e < 0 {
        d
    } else {
        d * pow2(e as nat)
    }
}

/// `n / d` lies from `m * 2^e` on, and short of `(m + 1) * 2^e`; `sticky` says that it is not the
/// former.
pub open spec fn brackets(n: nat, d: nat, m: nat, e: int, sticky: bool) -> bool {
    let num = scaled_num(n, e);
    let den = scaled_den(d, e);
    &&& den * m <= num < den * (m + 1)
    &&& sticky == (num != den * m)
}

/// Scaling changes neither what is nearest nor which powers of two are above.
proof fn lemma_scaling(n: nat, d: nat, e: int, j: nat, t: nat)
    requires
        d > 0,
        e + j >= 0,
    ensures
        scaled_den(d, e) > 0,
        nearest(n as int, (d * pow2((e + j) as nat)) as int) == nearest(
            scaled_num(n, e) as int,
            (scaled_den(d, e) * pow2(j)) as int,
        ),
        n < d * pow2((t + e + j) as nat) <==> scaled_num(n, e) < scaled_den(d, e) * pow2(t + j),
{
    let k = (e + j) as nat;
    let num = scaled_num(n, e);
    let den = scaled_den(d, e);
    lemma_pow2_pos(k);
    lemma_pow2_pos(j);
    lemma_pow2_pos(t + k);
    lemma_pow2_pos(t + j);
    if e < 0 {
        let c = pow2((-e) as nat);
        lemma_pow2_pos((-e) as nat);
        lemma_pow2_adds(k, (-e) as nat);
        lemma_pow2_adds(t + k, (-e) as nat);
        let pk = pow2(k);
        let ptk = pow2(t + k);
        assert(d * pk > 0) by (nonlinear_arith)
            requires
                d > 0,
                pk > 0,
        ;
        lemma_nearest_scales(n as int, (d * pk) as int, c as int);
        assert((d * pk) * c == d * (pk * c)) by (nonlinear_arith);
        assert(d * (ptk * c) == (d * ptk) * c) by (nonlinear_arith);
        assert(n < d * ptk <==> n * c < (d * ptk) * c) by (nonlinear_arith)
            requires
                c > 0,
        ;
    } else {
        let c = pow2(e as nat);
        lemma_pow2_pos(e as nat);
        lemma_pow2_adds(e as nat, j);
        lemma_pow2_adds(e as nat, t + j);
        let pj = pow2(j);
        let ptj = pow2(t + j);
        assert(e as nat + (t + j) == (t + e + j) as nat);
        assert((d * c) * pj == d * (c * pj)) by (nonlinear_arith);
        assert((d * c) * ptj == d * (c * ptj)) by (nonlinear_arith);
        assert(d * c > 0) by (nonlinear_arith)
            requires
                d > 0,
                c > 0,
        ;
    }
}

/// What is nearest, from the bits that are kept, those that are dropped, and whether anything was
/// dropped before.
proof fn lemma_nearest_sticky(num: int, w: int, m: int, p: int, sticky: bool)
    requires
        w > 0,
        p > 0,
        m >= 0,
        w * m <= num < w * (m + 1),
        sticky == (num != w * m),
        sticky ==> p % 2 == 0,
    ensures
        nearest(num, w * p) == if 2 * (m % p) < p || (2 * (m % p) == p && !sticky && (m / p) % 2
            == 0) {
            m / p
        } else {
            m / p + 1
        },
{
    let q = m / p;
    let r = m % p;
    let g = num - w * m;
    lemma_fundamental_div_mod(m, p);
    assert(num == q * (w * p) + (w * r + g)) by (nonlinear_arith)
        requires
            m == p * q + r,
            num == w * m + g,
    ;
    assert(w * (m + 1) == w * m + w) by (nonlinear_arith);
    assert(0 <= w * r + g < w * p) by (nonlinear_arith)
        requires
            0 <= r,
            r + 1 <= p,
            0 <= g < w,
            w > 0,
    ;
    lemma_fundamental_div_mod_converse(num, w * p, q, w * r + g);
    if 2 * r < p {
        if sticky {
            assert(2 * r + 2 <= p);
            assert(2 * (w * r + g) < w * p) by (nonlinear_arith)
                requires
                    2 * r + 2 <= p,
                    0 <= g < w,
            ;
        } else {
            assert(2 * (w * r + g) < w * p) by (nonlinear_arith)
                requires
                    2 * r < p,
                    g == 0,
                    w > 0,
            ;
        }
    } else if 2 * r == p {
        assert(2 * (w * r + g) == w * p + 2 * g) by (nonlinear_arith)
            requires
                2 * r == p,
        ;
    } else {
        assert(2 * (w * r + g) > w * p) by (nonlinear_arith)
            requires
                2 * r > p,
                g >= 0,
                w > 0,
        ;
    }
}

/// Doubling `m` and halving its unit brackets the same quotient.
proof fn lemma_brackets_halved(n: nat, d: nat, m: nat, e: int)
    requires
        e > 0,
        brackets(n, d, m, e, false),
    ensures
        brackets(n, d, 2 * m, e - 1, false),
{
    let w = scaled_den(d, e);
    let v = scaled_den(d, e - 1);
    lemma_pow2_unfold(e as nat);
    let c = pow2((e - 1) as nat);
    assert(d * (2 * c) == 2 * (d * c)) by (nonlinear_arith);
    assert(w == 2 * v);
    assert((2 * v) * m == v * (2 * m)) by (nonlinear_arith);
    assert(v * (2 * m + 1) == v * (2 * m) + v) by (nonlinear_arith);
    assert(w * (m + 1) == w * m + w) by (nonlinear_arith);
    assert(w > 0);
}

/// The pattern, without a sign bit, of the number nearest to a quotient that lies between two
/// multiples of a power of two.
pub(crate) fn round_bits(
    m: u128,
    e: i64,
    sticky: bool,
    Ghost(n): Ghost<nat>,
    Ghost(d): Ghost<nat>,
) -> (bits: u64)
    requires
        d > 0,
        m < 0x4000_0000_0000_0000_0000_0000_0000_0000,
        -3000 <= e <= 3100,
        sticky ==> m >= 0x40_0000_0000_0000,
        brackets(n, d, m as nat, e as int, sticky),
    ensures
        bits == nearest_magnitude(n, d),
        bits <= INFINITY_BITS,
{
    let mut m: u128 = m;
    let mut e: i64 = e;
    proof {
        lemma2_to64();
        lemma2_to64_rest();
        lemma_pow2_adds(64, 62);
    }
    while e > 0 && m < 0x40_0000_0000_0000
        invariant
            m < 0x4000_0000_0000_0000_0000_0000_0000_0000,
            -3000 <= e <= 3100,
            sticky ==> m >= 0x40_0000_0000_0000,
            brackets(n, d, m as nat, e as int, sticky),
        decreases e,
    {
        proof {
            lemma_brackets_halved(n, d, m as nat, e as int);
        }
        m = m * 2;
        e = e - 1;
    }
    let ghost num = scaled_num(n, e as int) as int;
    let ghost den = scaled_den(d, e as int) as int;
    let start: u64 = if e < 0 {
        (-e) as u64
    } else {
        0
    };
    if start > 126 {
        proof {
            lemma_tiny(n, d, m as nat, start as nat);
        }
        return 0;
    }
    let mut j: u64 = start;
    let mut p: u128 = power_of_two(j);
    proof {
        lemma_pow2_pos(j as nat);
    }
    while m / p >= 0x20_0000_0000_0000
        invariant
            m < 0x4000_0000_0000_0000_0000_0000_0000_0000,
            start <= j <= 126,
            p == pow2(j as nat),
            p > 0,
            pow2(126) == 0x4000_0000_0000_0000_0000_0000_0000_0000,
            j > start ==> m >= 0x20_0000_0000_0000 * pow2((j - 1) as nat),
        decreases 126 - j,
    {
        proof {
            lemma_pow2_unfold((j + 1) as nat);
            lemma_fundamental_div_mod(m as int, p as int);
            let mq = m as int / p as int;
            let mr = m as int % p as int;
            assert(m >= 0x20_0000_0000_0000 * p) by (nonlinear_arith)
                requires
                    m == p * mq + mr,
                    mq >= 0x20_0000_0000_0000,
                    0 <= mr,
                    p > 0,
            ;
            assert(p < 0x200_0000_0000_0000_0000) by (nonlinear_arith)
                requires
                    m >= 0x20_0000_0000_0000 * p,
                    m < 0x4000_0000_0000_0000_0000_0000_0000_0000,
            ;
        }
        p = p * 2;
        j = j + 1;
    }
    let k: u64 = (e + j as i64) as u64;
    let q: u128 = m / p;
    let r: u128 = m % p;
    proof {
        lemma_scaling(n, d, e as int, j as nat, 53);
        lemma_scaling(n, d, e as int, j as nat, 52);
        lemma_pow2_adds(53, j as nat);
        lemma_pow2_adds(52, j as nat);
        lemma_fundamental_div_mod(m as int, p as int);
        let mq = m as int / p as int;
        let mr = m as int % p as int;
        assert(m < 0x20_0000_0000_0000 * p) by (nonlinear_arith)
            requires
                m == p * mq + mr,
                mq + 1 <= 0x20_0000_0000_0000,
                mr < p,
                p > 0,
        ;
        let above = 0x20_0000_0000_0000 * p;
        assert(den * (m + 1) <= den * above) by (nonlinear_arith)
            requires
                m + 1 <= above,
                den > 0,
        ;
        if k > 0 {
            if j == start {
                assert(e > 0);
                assert(pow2(0) == 1);
                assert(false);
            }
            lemma_pow2_unfold(j as nat);
            let below = 0x10_0000_0000_0000 * p;
            assert(m >= below);
            assert(den * m >= den * below) by (nonlinear_arith)
                requires
                    m >= below,
                    den > 0,
            ;
        }
        assert(is_quantum(n, d, k as nat));
        let chosen = choose|l: nat| is_quantum(n, d, l);
        lemma_quantum_unique(n, d, k as nat, chosen);
        if j > 0 {
            lemma_pow2_unfold(j as nat);
        } else if sticky {
            assert(pow2(0) == 1);
            assert(false);
        }
        lemma_nearest_sticky(num, den, m as int, p as int, sticky);
    }
    let rounded: u64 = if r < p - r || (r == p - r && !sticky && q % 2 == 0) {
        q as u64
    } else {
        q as u64 + 1
    };
    let bits: u64 = rounded + k * FRACTION_RANGE;
    if bits < INFINITY_BITS {
        bits
    } else {
        INFINITY_BITS
    }
}

/// A quotient below half of the smallest positive number rounds to zero.
proof fn lemma_tiny(n: nat, d: nat, m: nat, s: nat)
    requires
        d > 0,
        s > 126,
        m < pow2(126),
        n * pow2(s) < d * (m + 1),
    ensures
        nearest_magnitude(n, d) == 0,
{
    let c = pow2(s);
    lemma_pow2_unfold(127);
    if s > 127 {
        lemma_pow2_strictly_increases(127, s);
    }
    assert(2 * n < d) by (nonlinear_arith)
        requires
            n * c < d * (m + 1),
            2 * (m + 1) <= c,
            c > 0,
            d > 0,
    ;
    lemma2_to64();
    lemma2_to64_rest();
    assert(d <= d * pow2(53)) by (nonlinear_arith)
        requires
            pow2(53) >= 1,
    ;
    assert(is_quantum(n, d, 0));
    let chosen = choose|l: nat| is_quantum(n, d, l);
    lemma_quantum_unique(n, d, 0, chosen);
    assert(pow2(0) == 1);
    lemma_nearest_zero(n as int, d as int);
}

/// What is below a whole number is nearest to no more than that.
pub proof fn lemma_nearest_bound(n: int, d: int, b: int)
    requires
        0 <= n < b * d,
        d > 0,
    ensures
        0 <= nearest(n, d) <= b,
{
    lemma_fundamental_div_mod(n, d);
    let q = n / d;
    let r = n % d;
    assert(q < b) by (nonlinear_arith)
        requires
            n == d * q + r,
            n < b * d,
            r >= 0,
            d > 0,
    ;
    assert(q >= 0) by (nonlinear_arith)
        requires
            n == d * q + r,
            n >= 0,
            r < d,
            d > 0,
    ;
}

/// Every quotient has a multiple of a power of two to round to.
pub proof fn lemma_quantum_exists(n: nat, d: nat)
    requires
        d > 0,
    ensures
        exists|k: nat| is_quantum(n, d, k),
{
    lemma_pow2_exceeds(n);
    lemma_pow2_adds(53, n);
    lemma2_to64_rest();
    let p = pow2(n);
    assert(n < d * (0x20_0000_0000_0000 * p)) by (nonlinear_arith)
        requires
            n < p,
            d > 0,
    ;
    lemma_quantum_above(n, d, n);
}

proof fn lemma_pow2_exceeds(n: nat)
    ensures
        n < pow2(n),
    decreases n,
{
    if n == 0 {
        lemma_pow2_pos(0);
    } else {
        lemma_pow2_exceeds((n - 1) as nat);
        lemma_pow2_unfold(n);
    }
}

proof fn lemma_quantum_above(n: nat, d: nat, k: nat)
    requires
        d > 0,
        n < d * pow2(53 + k),
    ensures
        exists|l: nat| is_quantum(n, d, l),
    decreases k,
{
    if k == 0 || n >= d * pow2(52 + k) {
        assert(is_quantum(n, d, k));
    } else {
        lemma_quantum_above(n, d, (k - 1) as nat);
    }
}

/// A greater quotient is nearest to no lesser whole number.
pub proof fn lemma_nearest_monotone(a: int, b: int, d: int)
    requires
        0 <= a <= b,
        d > 0,
    ensures
        nearest(a, d) <= nearest(b, d),
{
    lemma_fundamental_div_mod(a, d);
    lemma_fundamental_div_mod(b, d);
    let p = a / d;
    let q = b / d;
    let r = a % d;
    let s = b % d;
    assert(p <= q) by (nonlinear_arith)
        requires
            a == d * p + r,
            b == d * q + s,
            a <= b,
            0 <= r < d,
            0 <= s < d,
            d > 0,
    ;
    if p == q {
        assert(r <= s);
    }
}

/// A quotient that uses all bits is nearest to no less than they can hold.
proof fn lemma_nearest_at_least(n: int, d: int, b: int)
    requires
        n >= b * d,
        d > 0,
    ensures
        nearest(n, d) >= b,
{
    lemma_fundamental_div_mod(n, d);
    let q = n / d;
    let r = n % d;
    assert(q >= b) by (nonlinear_arith)
        requires
            n == d * q + r,
            n >= b * d,
            0 <= r < d,
            d > 0,
    ;
}

/// A greater quotient rounds to no lesser number.
pub proof fn lemma_magnitude_monotone(a: nat, b: nat, d: nat)
    requires
        a <= b,
        d > 0,
    ensures
        nearest_magnitude(a, d) <= nearest_magnitude(b, d),
        nearest_magnitude(b, d) <= INFINITY_BITS,
{
    lemma_quantum_exists(a, d);
    lemma_quantum_exists(b, d);
    let k = choose|k: nat| is_quantum(a, d, k);
    let l = choose|l: nat| is_quantum(b, d, l);
    let p = pow2(k);
    let q = pow2(l);
    lemma_pow2_pos(k);
    lemma_pow2_pos(l);
    lemma2_to64();
    lemma2_to64_rest();
    assert(d * p > 0) by (nonlinear_arith)
        requires
            d > 0,
            p > 0,
    ;
    assert(d * q > 0) by (nonlinear_arith)
        requires
            d > 0,
            q > 0,
    ;
    lemma_pow2_adds(53, k);
    lemma_pow2_adds(52, l);
    assert(d * (0x20_0000_0000_0000 * p) == 0x20_0000_0000_0000 * (d * p)) by (nonlinear_arith);
    assert(d * (0x10_0000_0000_0000 * q) == 0x10_0000_0000_0000 * (d * q)) by (nonlinear_arith);
    lemma_nearest_bound(a as int, (d * p) as int, 0x20_0000_0000_0000);
    lemma_div_pos_is_pos(b as int, (d * q) as int);
    if k == l {
        lemma_nearest_monotone(a as int, b as int, (d * p) as int);
    } else if k < l {
        lemma_nearest_at_least(b as int, (d * q) as int, 0x10_0000_0000_0000);
    } else {
        if 53 + l < 52 + k {
            lemma_pow2_strictly_increases(53 + l, 52 + k);
        }
        let low = pow2(53 + l);
        let high = pow2(52 + k);
        assert(d * low <= d * high) by (nonlinear_arith)
            requires
                low <= high,
        ;
    }
}

/// A common factor does not change what is nearest in double precision.
pub proof fn lemma_magnitude_scales(n: nat, d: nat, c: nat)
    requires
        d > 0,
        c > 0,
    ensures
        nearest_magnitude(n * c, d * c) == nearest_magnitude(n, d),
{
    lemma_quantum_exists(n, d);
    let k = choose|k: nat| is_quantum(n, d, k);
    let p = pow2(k);
    let high = pow2(53 + k);
    let low = pow2(52 + k);
    lemma_pow2_pos(k);
    assert(n < d * high ==> n * c < (d * c) * high) by (nonlinear_arith)
        requires
            c > 0,
    ;
    assert(n >= d * low ==> n * c >= (d * c) * low) by (nonlinear_arith)
        requires
            c > 0,
    ;
    let nc = n * c;
    let dc = d * c;
    assert(is_quantum(nc, dc, k));
    let l = choose|l: nat| is_quantum(nc, dc, l);
    lemma_quantum_unique(nc, dc, k, l);
    assert(d * p > 0) by (nonlinear_arith)
        requires
            d > 0,
            p > 0,
    ;
    lemma_nearest_scales(n as int, (d * p) as int, c as int);
    assert((d * c) * p == (d * p) * c) by (nonlinear_arith);
}

/// Rounding errs by no more than half of what it rounds to a multiple of.
pub proof fn lemma_magnitude_is_near(n: nat, d: nat) -> (k: nat)
    requires
        d > 0,
        nearest_magnitude(n, d) < INFINITY_BITS,
    ensures
        is_quantum(n, d, k),
        2 * (d * magnitude_value(nearest_magnitude(n, d)) - n) <= d * pow2(k),
        2 * (n - d * magnitude_value(nearest_magnitude(n, d))) <= d * pow2(k),
        n as int % (d * pow2(k)) as int == 0 ==> d * magnitude_value(nearest_magnitude(n, d)) == n,
{
    lemma_quantum_exists(n, d);
    let k = choose|k: nat| is_quantum(n, d, k);
    let p = pow2(k) as int;
    let w = d * p;
    let q = nearest(n as int, w);
    let range = FRACTION_RANGE as int;
    lemma_pow2_pos(k);
    lemma2_to64();
    lemma2_to64_rest();
    lemma_pow2_adds(53, k);
    lemma_pow2_adds(52, k);
    assert(w > 0) by (nonlinear_arith)
        requires
            w == d * p,
            d > 0,
            p > 0,
    ;
    assert(d * (2 * range * p) == 2 * range * w && d * (range * p) == range * w)
        by (nonlinear_arith)
        requires
            w == d * p,
    ;
    lemma_nearest_bound(n as int, w, 2 * range);
    if k > 0 {
        lemma_nearest_at_least(n as int, w, range);
    }
    let m = q + k * range;
    let v = magnitude_value(m as nat) as int;
    assert(v == q * p) by {
        if q < range {
            assert(k == 0 && p == 1);
            lemma_fundamental_div_mod_converse(m, range, 0, q);
            assert(q * p == q) by (nonlinear_arith)
                requires
                    p == 1,
            ;
        } else if q < 2 * range {
            lemma_fundamental_div_mod_converse(m, range, k as int + 1, q - range);
        } else {
            lemma_fundamental_div_mod_converse(m, range, k as int + 2, 0);
            lemma_pow2_unfold(k + 1);
            assert(range * (2 * p) == q * p) by (nonlinear_arith)
                requires
                    q == 2 * range,
            ;
        }
    }
    lemma_fundamental_div_mod(n as int, w);
    lemma_mod_bound(n as int, w);
    assert(d * v == q * w) by (nonlinear_arith)
        requires
            v == q * p,
            w == d * p,
    ;
    let t = n as int / w;
    assert(w * t == t * w) by (nonlinear_arith);
    assert((t + 1) * w == t * w + w) by (nonlinear_arith);
    k
}

/// Rounding to double precision keeps fifty-three bits: what it gives differs from the exact quotient
/// by no more than that divided by two to the power of fifty-three.
pub proof fn law_rounding_is_near(n: nat, d: nat)
    requires
        d > 0,
        n >= d * pow2(52),
        nearest_magnitude(n, d) < INFINITY_BITS,
    ensures
        pow2(53) * (d * magnitude_value(nearest_magnitude(n, d)) - n) <= n,
        pow2(53) * (n - d * magnitude_value(nearest_magnitude(n, d))) <= n,
{
    let k = lemma_magnitude_is_near(n, d);
    let e = d * magnitude_value(nearest_magnitude(n, d)) - n;
    let p = pow2(k) as int;
    lemma2_to64();
    lemma2_to64_rest();
    lemma_pow2_pos(k);
    lemma_pow2_adds(52, k);
    let half = pow2(52) as int;
    assert(half * (d * p) <= n) by (nonlinear_arith)
        requires
            k == 0 ==> p == 1,
            k > 0 ==> n >= d * (half * p),
            n >= d * half,
            p > 0,
            k >= 0,
    ;
    assert(2 * half * e <= half * (d * p) && 2 * half * (-e) <= half * (d * p)) by (nonlinear_arith)
        requires
            2 * e <= d * p,
            2 * (-e) <= d * p,
            half > 0,
    ;
}

} // verus!
