//! How far rendering has come.

use crate::arith::{
    law_product_is_near, law_quotient_of_wholes, law_representable_is_exact,
    law_truncation_is_floor, law_whole_is_amount, law_whole_is_exact, lemma_product_of_wholes,
    lemma_rounds_below_power, lemma_zero_rounds, of_whole, product, quotient, size,
};
use crate::double::{
    lemma_magnitudes_ordered, magnitude_value, truncated, unit, Double, ONE_BITS,
};
use crate::i18n::{message, Lang};
use crate::rounding::{lemma_magnitude_monotone, lemma_magnitude_scales};
use crate::text::{decimal, replaced, write_decimal};
use vstd::arithmetic::div_mod::*;
use vstd::arithmetic::power2::*;
use vstd::prelude::*;
use vstd::string::*;

verus! {

/// How many milliseconds pass at least between two reports.
pub const INTERVAL_MS: u64 = 100;

/// How many characters wide the bar is.
pub const BAR_WIDTH: u64 = 30;

/// The pattern of a hundred.
const HUNDRED_BITS: u64 = 0x4059_0000_0000_0000;

/// A line that says how far rendering has come.
pub struct ProgressLine {
    pub text: String,
    /// Whether it is the last one.
    pub ends: bool,
}

/// How many frames there are: the exact number once it is known, or else the estimate, unless more
/// are done already.
pub open spec fn total_of(current: nat, estimate: nat, exact: nat) -> nat {
    if exact > 0 {
        exact
    } else if estimate < current {
        current
    } else {
        estimate
    }
}

/// All frames are done, and it is known how many there are.
pub open spec fn is_done(current: nat, exact: nat) -> bool {
    exact > 0 && current >= exact
}

/// The percentage of the frames that are done, rounded down.
pub open spec fn percentage(current: nat, total: nat) -> int {
    let n = truncated(product(quotient(of_whole(current), of_whole(total)), of_whole(100)));
    if n > u32::MAX {
        u32::MAX as int
    } else {
        n
    }
}

/// How many characters of the bar are filled.
pub open spec fn filled(current: nat, total: nat) -> int {
    let n = truncated(
        quotient(product(of_whole(BAR_WIDTH as nat), of_whole(current)), of_whole(total)),
    );
    if n > BAR_WIDTH {
        BAR_WIDTH as int
    } else {
        n
    }
}

/// A character, `n` times.
pub open spec fn repeated(c: char, n: nat) -> Seq<char> {
    Seq::new(n, |i: int| c)
}

/// A text, with spaces before it up to three characters.
pub open spec fn padded(s: Seq<char>) -> Seq<char> {
    if s.len() < 3 {
        repeated(' ', (3 - s.len()) as nat) + s
    } else {
        s
    }
}

/// The line that says how far rendering has come.
pub open spec fn line_of(current: nat, estimate: nat, exact: nat, lang: Lang) -> Seq<char> {
    let total = total_of(current, estimate, exact);
    if total == 0 {
        seq!['\r'] + replaced(message(lang, "render_progress"@), "{}"@, decimal(current))
    } else {
        let n = filled(current, total);
        "\r["@ + repeated('█', n as nat) + repeated('░', (BAR_WIDTH - n) as nat) + "] "@
            + padded(decimal(percentage(current, total) as nat)) + "% ("@ + decimal(current) + "/"@
            + decimal(total) + ")"@
    }
}

fn push_repeated(s: &mut String, c: char, n: u64)
    ensures
        final(s)@ == old(s)@ + repeated(c, n as nat),
{
    let mut i: u64 = 0;
    assert(s@ == old(s)@ + repeated(c, 0));
    while i < n
        invariant
            i <= n,
            s@ == old(s)@ + repeated(c, i as nat),
        decreases n - i,
    {
        s.push(c);
        assert(repeated(c, (i + 1) as nat) == repeated(c, i as nat).push(c));
        assert(s@ == old(s)@ + repeated(c, (i + 1) as nat));
        i += 1;
    }
}

/// Makes up the line that says how far rendering has come: of the estimated or, once it is known, the
/// exact number of frames, `current` are done.
pub fn render_progress(current: u64, estimate: u64, exact: u64, lang: Lang) -> (line: ProgressLine)
    ensures
        line.text@ == line_of(current as nat, estimate as nat, exact as nat, lang),
        line.ends == is_done(current as nat, exact as nat),
{
    let total: u64 = if exact > 0 {
        exact
    } else if estimate < current {
        current
    } else {
        estimate
    };
    let shown = write_decimal(current);
    if total == 0 {
        let mut text = String::new();
        text.push('\r');
        text.append(lang.fill("render_progress", shown.as_str()).as_str());
        assert(text@ == line_of(current as nat, estimate as nat, exact as nat, lang));
        return ProgressLine { text, ends: false };
    }
    let done = Double::from_u64(current);
    let all = Double::from_u64(total);
    let percent: u64 = done.over(all).times(Double::from_u64(100)).to_u64_saturating();
    let percent: u64 = if percent > 0xffff_ffff {
        0xffff_ffff
    } else {
        percent
    };
    let n: u64 = Double::from_u64(BAR_WIDTH).times(done).over(all).to_u64_saturating();
    let n: u64 = if n > BAR_WIDTH {
        BAR_WIDTH
    } else {
        n
    };
    let mut text = "\r[".to_owned();
    push_repeated(&mut text, '█', n);
    push_repeated(&mut text, '░', BAR_WIDTH - n);
    text.append("] ");
    let number = write_decimal(percent);
    let width: usize = number.as_str().unicode_len();
    if width < 3 {
        push_repeated(&mut text, ' ', 3 - width as u64);
    }
    let ghost before = text@;
    text.append(number.as_str());
    text.append("% (");
    text.append(shown.as_str());
    text.append("/");
    text.append(write_decimal(total).as_str());
    text.append(")");
    assert(text@ == line_of(current as nat, estimate as nat, exact as nat, lang));
    ProgressLine { text, ends: exact > 0 && current >= exact }
}

/// When to say how far rendering has come.
pub struct Pace {
    /// When it was last said, in milliseconds; `None` if it was not.
    last: Option<u64>,
    /// Whether the last line was written.
    ended: bool,
}

impl Pace {
    /// When it was last said.
    pub closed spec fn last(&self) -> Option<u64> {
        self.last
    }

    /// The last line was written.
    pub closed spec fn ended(&self) -> bool {
        self.ended
    }

    /// It is time to say how far rendering has come.
    pub open spec fn is_due(&self, now: int, done: bool) -> bool {
        done || match self.last() {
            Some(last) => now - last >= INTERVAL_MS,
            None => true,
        }
    }

    /// Nothing has been said yet.
    pub fn new() -> (p: Pace)
        ensures
            p.last() is None,
            !p.ended(),
    {
        Pace { last: None, ended: false }
    }

    /// Whether to say how far rendering has come, after `current` frames, at a given time in
    /// milliseconds.
    pub fn step(&mut self, current: u64, exact: u64, now: u64) -> (due: bool)
        ensures
            due == old(self).is_due(now as int, is_done(current as nat, exact as nat)),
            final(self).last() == if due {
                Some(now)
            } else {
                old(self).last()
            },
            final(self).ended() == (old(self).ended() || is_done(current as nat, exact as nat)),
    {
        let done = exact > 0 && current >= exact;
        let due = done || match self.last {
            Some(last) => now >= last && now - last >= INTERVAL_MS,
            None => true,
        };
        if due {
            self.last = Some(now);
        }
        if done {
            self.ended = true;
        }
        due
    }

    /// What is left to be written at the end: whether one more line, and whether a line break after
    /// it.
    pub fn finish(&self, current: u64, exact: u64) -> (rest: (bool, bool))
        ensures
            rest.0 == !self.ended(),
            rest.1 == (!self.ended() && !is_done(current as nat, exact as nat)),
    {
        (!self.ended, !self.ended && (exact == 0 || current < exact))
    }
}

/// Once all frames are done, the line is written at once, however short ago the one before was.
pub proof fn law_end_is_always_reported(p: Pace, current: nat, exact: nat, now: int)
    requires
        is_done(current, exact),
    ensures
        p.is_due(now, is_done(current, exact)),
{
}

/// The bar is never wider than it should be.
pub proof fn law_bar_fits(current: nat, total: nat)
    ensures
        0 <= filled(current, total) <= BAR_WIDTH,
{
    let d = quotient(product(of_whole(BAR_WIDTH as nat), of_whole(current)), of_whole(total));
    let u = unit() as int;
    if !d.spec_is_nan() && d.value() > 0 {
        assert(d.value() / u >= 0) by {
            lemma_pow2_pos(1074);
            lemma_div_pos_is_pos(d.value(), u);
        }
    }
}

/// The number one is one unit.
pub proof fn lemma_one()
    ensures
        size(Double { bits: ONE_BITS }) == unit(),
{
    let p = pow2(1022);
    lemma2_to64();
    lemma2_to64_rest();
    lemma_pow2_adds(52, 1022);
    assert((0x10_0000_0000_0000nat + 0nat) * p == 0x10_0000_0000_0000nat * p);
}

/// A hundred can be held as it is.
proof fn lemma_hundred()
    ensures
        of_whole(100) == (Double { bits: HUNDRED_BITS }),
        size(Double { bits: HUNDRED_BITS }) == 100 * unit(),
{
    let x = Double { bits: HUNDRED_BITS };
    let p = pow2(1028);
    lemma2_to64();
    lemma2_to64_rest();
    lemma_pow2_adds(46, 1028);
    let q = pow2(46);
    assert(0x19_0000_0000_0000nat * p == 100 * (q * p)) by (nonlinear_arith)
        requires
            q == 0x4000_0000_0000nat,
    ;
    law_representable_is_exact(x);
}

/// At the end, the line says that a hundred percent are done.
pub proof fn law_ends_at_hundred_percent(total: nat)
    requires
        0 < total <= u64::MAX,
    ensures
        percentage(total, total) == 100,
{
    let one = Double { bits: ONE_BITS };
    let hundred = Double { bits: HUNDRED_BITS };
    let x = of_whole(total);
    let u = unit();
    lemma_pow2_pos(1074);
    lemma_one();
    lemma_hundred();
    law_whole_is_amount(total);
    law_representable_is_exact(one);
    law_representable_is_exact(hundred);
    assert(1 * u <= total * u) by (nonlinear_arith)
        requires
            total >= 1,
    ;
    lemma_magnitude_monotone(u, total * u, 1);
    let s = size(x);
    lemma_magnitudes_ordered(0, x.magnitude());
    assert(magnitude_value(0) == 0);
    lemma_magnitude_scales(u, 1, s);
    assert(s * u == u * s) by (nonlinear_arith);
    assert(quotient(x, x) == one);
    let h = size(hundred);
    lemma_magnitude_scales(h, 1, u);
    assert(u * h == h * u) by (nonlinear_arith);
    assert(product(one, hundred) == hundred);
    assert(hundred.value() == 100 * u);
    lemma_fundamental_div_mod_converse(100 * u as int, u as int, 100, 0);
}

/// The number of all frames is the exact one once it is known; until then, it is one that neither the
/// frames that are done nor the estimate exceed, and no greater than it must be.
pub proof fn law_total_covers_what_is_done(current: nat, estimate: nat, exact: nat)
    ensures
        exact > 0 ==> total_of(current, estimate, exact) == exact,
        exact == 0 ==> {
            let total = total_of(current, estimate, exact);
            &&& total >= current
            &&& total >= estimate
            &&& total == current || total == estimate
        },
{
}

/// The percentage times the number of all frames is not above a hundred times those that are done,
/// and that of the next percentage is: but for the rounding of doubles.
pub proof fn law_percentage_is_the_share(current: nat, total: nat)
    requires
        current <= total,
        0 < total < pow2(53),
    ensures
        ({
            let p = percentage(current, total);
            &&& p >= 0
            &&& pow2(53) * (p * total) <= (pow2(53) + 3) * (100 * current)
            &&& (pow2(53) - 3) * (100 * current) < pow2(53) * ((p + 1) * total)
        }),
{
    let u = unit();
    let t = pow2(53) as int;
    lemma2_to64();
    lemma2_to64_rest();
    lemma_pow2_pos(1074);
    law_whole_is_exact(current);
    law_whole_is_exact(total);
    law_whole_is_exact(100);
    let q = quotient(of_whole(current), of_whole(total));
    let r = product(q, of_whole(100));
    let c = current as int;
    let n = total as int;
    if current == 0 {
        assert(0 * u == 0);
        lemma_magnitudes_ordered(of_whole(current).magnitude(), 0);
        assert(total * u > 0) by (nonlinear_arith)
            requires
                total > 0,
                u > 0,
        ;
        lemma_magnitudes_ordered(of_whole(total).magnitude(), 0);
        lemma_zero_rounds(size(of_whole(total)));
        assert(size(of_whole(current)) * u == 0) by (nonlinear_arith)
            requires
                size(of_whole(current)) == 0,
        ;
        assert(q.magnitude() == 0);
        lemma_zero_rounds(u);
        assert(size(q) * size(of_whole(100)) == 0) by (nonlinear_arith)
            requires
                size(q) == 0,
        ;
        assert(r.magnitude() == 0);
        assert(percentage(current, total) == 0);
        assert(t * (0 * total) == 0) by (nonlinear_arith);
        assert((t + 3) * (100 * current) == 0 && (t - 3) * (100 * current) == 0) by (nonlinear_arith)
            requires
                current == 0,
        ;
        assert(t * ((0 + 1) * total) > 0) by (nonlinear_arith)
            requires
                t > 0,
                total > 0,
        ;
    } else {
        law_quotient_of_wholes(current, total);
        let v = q.value();
        assert(n * v <= 2 * (c * u) && 2 * (n * v) >= c * u) by (nonlinear_arith)
            requires
                t * (n * v - c * u) <= c * u,
                t * (c * u - n * v) <= c * u,
                t >= 2,
                c * u >= 0,
        ;
        assert(c * u <= n * u) by (nonlinear_arith)
            requires
                c <= n,
                u > 0,
        ;
        assert(v <= 2 * u) by (nonlinear_arith)
            requires
                n * v <= 2 * (n * u),
                n > 0,
        ;
        assert(c * u >= u) by (nonlinear_arith)
            requires
                c >= 1,
                u > 0,
        ;
        lemma_pow2_adds(53, 1021);
        lemma_pow2_unfold(1021);
        lemma_pow2_strictly_increases(52, 1020);
        assert(v >= pow2(1020)) by (nonlinear_arith)
            requires
                2 * (n * v) >= u,
                n < t,
                u == t * pow2(1021),
                pow2(1021) == 2 * pow2(1020),
                v > 0,
                t > 0,
        ;
        let e = size(q) * size(of_whole(100));
        assert(e == u * (100 * v)) by (nonlinear_arith)
            requires
                e == v * (100 * u),
        ;
        lemma_pow2_adds(8, 1074);
        assert(e >= u * pow2(52) && e <= u * pow2(1082)) by (nonlinear_arith)
            requires
                e == u * (100 * v),
                v >= pow2(52),
                v <= 2 * u,
                pow2(1082) == 256 * u,
        ;
        lemma_rounds_below_power(e, u, 1082);
        law_product_is_near(q, of_whole(100));
        let w = r.value();
        assert(t * (w - 100 * v) <= 100 * v && t * (100 * v - w) <= 100 * v) by (nonlinear_arith)
            requires
                t * (u * w - e) <= e,
                t * (e - u * w) <= e,
                e == u * (100 * v),
                u > 0,
        ;
        assert(w <= u64::MAX * u) by {
            assert(256 * u <= u64::MAX * u);
        }
        law_truncation_is_floor(r);
        let p = truncated(r);
        assert(p <= 256) by (nonlinear_arith)
            requires
                p * u <= w,
                w <= 256 * u,
                u > 0,
        ;
        assert(percentage(current, total) == p);
        lemma_share(p, c, n, u as int, v, w, t);
    }
}

/// What bounds on a quotient and a product with a hundred say of the whole part.
proof fn lemma_share(p: int, c: int, n: int, u: int, v: int, w: int, t: int)
    requires
        u > 0,
        n > 0,
        c > 0,
        v > 0,
        t >= 4,
        p >= 0,
        t * (n * v - c * u) <= c * u,
        t * (c * u - n * v) <= c * u,
        t * (w - 100 * v) <= 100 * v,
        t * (100 * v - w) <= 100 * v,
        p * u <= w,
        w < (p + 1) * u,
    ensures
        t * (p * n) <= (t + 3) * (100 * c),
        (t - 3) * (100 * c) < t * ((p + 1) * n),
{
    let x = 100 * (n * v);
    let y = 100 * (c * u);
    let z = n * w;
    assert(t * (z - x) <= x && t * (x - z) <= x) by (nonlinear_arith)
        requires
            t * (w - 100 * v) <= 100 * v,
            t * (100 * v - w) <= 100 * v,
            n > 0,
            x == 100 * (n * v),
            z == n * w,
    ;
    assert(t * (x - y) <= y && t * (y - x) <= y) by (nonlinear_arith)
        requires
            t * (n * v - c * u) <= c * u,
            t * (c * u - n * v) <= c * u,
            x == 100 * (n * v),
            y == 100 * (c * u),
    ;
    assert(y > 0) by (nonlinear_arith)
        requires
            c > 0,
            u > 0,
            y == 100 * (c * u),
    ;
    assert(x <= 2 * y) by (nonlinear_arith)
        requires
            t * (x - y) <= y,
            t >= 1,
            y > 0,
    ;
    assert(t * (z - y) == t * (z - x) + t * (x - y)) by (nonlinear_arith);
    assert(t * (y - z) == t * (y - x) + t * (x - z)) by (nonlinear_arith);
    assert(t * z <= (t + 3) * y && (t - 3) * y <= t * z) by (nonlinear_arith)
        requires
            t * (z - y) <= 3 * y,
            t * (y - z) <= 3 * y,
    ;
    assert((p * n) * u <= z && z < ((p + 1) * n) * u) by (nonlinear_arith)
        requires
            p * u <= w,
            w < (p + 1) * u,
            n > 0,
            z == n * w,
    ;
    assert(t * (p * n) <= (t + 3) * (100 * c)) by (nonlinear_arith)
        requires
            (p * n) * u <= z,
            t * z <= (t + 3) * y,
            y == 100 * (c * u),
            u > 0,
            t > 0,
    ;
    assert((t - 3) * (100 * c) < t * ((p + 1) * n)) by (nonlinear_arith)
        requires
            z < ((p + 1) * n) * u,
            (t - 3) * y <= t * z,
            y == 100 * (c * u),
            u > 0,
            t > 0,
    ;
}

/// The filled part of the bar times the number of all frames is not above the width of the bar times
/// those that are done, and one character more would be: but for the rounding of doubles.
pub proof fn law_bar_is_the_share(current: nat, total: nat)
    requires
        current <= total,
        0 < total,
        BAR_WIDTH * total < pow2(53),
    ensures
        ({
            let n = filled(current, total);
            &&& pow2(53) * (n * total) <= (pow2(53) + 1) * (BAR_WIDTH * current)
            &&& (pow2(53) - 1) * (BAR_WIDTH * current) < pow2(53) * ((n + 1) * total)
        }),
{
    let u = unit() as int;
    let t = pow2(53) as int;
    let a = 30 * current;
    lemma2_to64();
    lemma2_to64_rest();
    lemma_pow2_pos(1074);
    lemma_product_of_wholes(30, current);
    law_whole_is_exact(a);
    law_whole_is_exact(total);
    let q = quotient(of_whole(a), of_whole(total));
    if current == 0 {
        assert(0 * u == 0);
        lemma_magnitudes_ordered(of_whole(a).magnitude(), 0);
        assert(total * u > 0) by (nonlinear_arith)
            requires
                total > 0,
                u > 0,
        ;
        lemma_magnitudes_ordered(of_whole(total).magnitude(), 0);
        lemma_zero_rounds(size(of_whole(total)));
        assert(size(of_whole(a)) * u == 0) by (nonlinear_arith)
            requires
                size(of_whole(a)) == 0,
        ;
        assert(filled(current, total) == 0);
        assert(t * (0 * total) == 0) by (nonlinear_arith);
        assert((t + 1) * (30 * current) == 0 && (t - 1) * (30 * current) == 0) by (nonlinear_arith)
            requires
                current == 0,
        ;
        assert(t * ((0 + 1) * total) > 0) by (nonlinear_arith)
            requires
                t > 0,
                total > 0,
        ;
    } else {
        law_quotient_of_wholes(a, total);
        let v = q.value();
        let n = total as int;
        assert(v <= 60 * u) by (nonlinear_arith)
            requires
                t * (n * v - a * u) <= a * u,
                t >= 1,
                a <= 30 * n,
                n > 0,
                u > 0,
        ;
        assert(v <= u64::MAX * u) by (nonlinear_arith)
            requires
                v <= 60 * u,
                u > 0,
        ;
        law_truncation_is_floor(q);
        let k = truncated(q);
        assert(t * (k * n) <= (t + 1) * a) by (nonlinear_arith)
            requires
                t * (n * v - a * u) <= a * u,
                k * u <= v,
                n > 0,
                u > 0,
                t > 0,
        ;
        assert((t - 1) * a < t * ((k + 1) * n)) by (nonlinear_arith)
            requires
                t * (a * u - n * v) <= a * u,
                v < (k + 1) * u,
                n > 0,
                u > 0,
                t > 0,
        ;
        assert(k <= 30) by (nonlinear_arith)
            requires
                t * (k * n) <= (t + 1) * a,
                a <= 30 * n,
                n > 0,
                t > 30,
        ;
    }
}

/// Two lines come no closer than the interval, unless all frames are done; and a line that is due
/// after the interval is not held back.
pub proof fn law_lines_keep_their_distance(p: Pace, last: u64, now: int)
    requires
        p.last() == Some(last),
    ensures
        p.is_due(now, false) <==> now >= last + INTERVAL_MS,
{
}

/// The bar is made of as many full characters as are filled, from the left, and is empty from there
/// on; the line ends with the frames that are done, a slash, and all of them.
pub proof fn law_line_shows_the_bar(current: nat, estimate: nat, exact: nat, lang: Lang, i: int)
    requires
        total_of(current, estimate, exact) > 0,
        0 <= i < BAR_WIDTH,
    ensures
        ({
            let total = total_of(current, estimate, exact);
            let line = line_of(current, estimate, exact, lang);
            let ending = decimal(current) + "/"@ + decimal(total) + ")"@;
            &&& line.len() >= BAR_WIDTH + 2
            &&& line[2 + i] == if i < filled(current, total) {
                '█'
            } else {
                '░'
            }
            &&& line.len() >= ending.len()
            &&& line.skip(line.len() - ending.len()) == ending
        }),
{
    reveal_strlit("\r[");
    let total = total_of(current, estimate, exact);
    law_bar_fits(current, total);
    let n = filled(current, total);
    let full = repeated('█', n as nat);
    let empty = repeated('░', (BAR_WIDTH - n) as nat);
    let front = "\r["@ + full + empty;
    let middle = front + "] "@ + padded(decimal(percentage(current, total) as nat)) + "% ("@;
    let ending = decimal(current) + "/"@ + decimal(total) + ")"@;
    let line = line_of(current, estimate, exact, lang);
    assert(line =~= middle + ending);
    assert(middle[2 + i] == front[2 + i]);
    assert(line[2 + i] == front[2 + i]);
    if i < n {
        assert(front[2 + i] == full[i]);
    } else {
        assert(front[2 + i] == empty[i - n]);
    }
    assert(line.skip(line.len() - ending.len()) =~= ending);
}

/// The percentage is set flush right in at least three columns, with spaces before it.
pub proof fn law_percentage_is_set_right(s: Seq<char>, i: int)
    requires
        0 <= i < padded(s).len(),
    ensures
        padded(s).len() >= 3,
        padded(s).len() == s.len() || padded(s).len() == 3,
        padded(s).len() >= s.len(),
        ({
            let gap = padded(s).len() - s.len();
            padded(s)[i] == if i < gap {
                ' '
            } else {
                s[i - gap]
            }
        }),
{
}

} // verus!
