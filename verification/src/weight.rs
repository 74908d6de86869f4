//! What document weights are worth: how close they come to the formula that they
//! round, and that longer documents do not weigh more.
use crate::binary::lemma_formats;
use crate::binary::lemma_plus_monotone;
use crate::binary::lemma_plus_score;
use crate::binary::single;
use crate::binary::Binary32;
use crate::float::lemma_magnitude_zero;
use crate::rounding::distance;
use crate::rounding::law_rounds_to_nearest;
use crate::rounding::lemma_round_code_exact;
use crate::rounding::lemma_round_code_monotone;
use crate::rounding::lemma_round_error;
use crate::rounding::lemma_units_strict;
use crate::rounding::nearest_even;
use crate::rounding::round_code;
use crate::rounding::units;
use crate::scorer::b_spec;
use crate::scorer::bm25_weight;
use crate::scorer::doc_weight_ceiling;
use crate::scorer::k1_spec;
use crate::scorer::one_minus_b_spec;
use crate::scorer::saturation_spec;
use vstd::arithmetic::div_mod::lemma_fundamental_div_mod;
use vstd::arithmetic::div_mod::lemma_fundamental_div_mod_converse;
use vstd::arithmetic::power2::lemma_pow2_adds;
use vstd::arithmetic::power2::lemma_pow2_pos;
use vstd::arithmetic::power2::lemma_pow2_unfold;
use vstd::arithmetic::power2::pow2;
use vstd::prelude::*;

verus! {

/// Rounding depends on the ratio alone.
proof fn lemma_round_scaled(m: nat, n: nat, d: nat, k: nat)
    requires
        d > 0,
        k > 0,
    ensures
        round_code(m, n * k, d * k) == round_code(m, n, d),
    decreases n - d,
{
    let p = pow2(m + 1);
    lemma_pow2_pos(m + 1);
    assert(d * k > 0) by (nonlinear_arith)
        requires
            d > 0,
            k > 0,
    ;
    assert(n * k < (d * k) * p <==> n < d * p) by (nonlinear_arith)
        requires
            k > 0,
    ;
    if n < d * p {
        let (q, r) = (n / d, n % d);
        lemma_fundamental_div_mod(n as int, d as int);
        assert(n * k == q * (d * k) + r * k && 0 <= r * k < d * k) by (nonlinear_arith)
            requires
                n == d * q + r,
                0 <= r < d,
                k > 0,
        ;
        lemma_fundamental_div_mod_converse((n * k) as int, (d * k) as int, q as int, (r * k) as int);
        assert((2 * (r * k) < d * k <==> 2 * r < d) && (2 * (r * k) > d * k <==> 2 * r > d))
            by (nonlinear_arith)
            requires
                k > 0,
        ;
    } else {
        crate::rounding::lemma_double_below(m, n, d);
        crate::rounding::lemma_double_below(m, n * k, d * k);
        lemma_round_scaled(m, n, 2 * d, k);
        assert((2 * d) * k == 2 * (d * k)) by (nonlinear_arith);
    }
}

/// A larger divisor gives no larger ratio.
proof fn lemma_round_antitone(m: nat, n: nat, d1: nat, d2: nat)
    requires
        0 < d1 <= d2,
    ensures
        round_code(m, n, d2) <= round_code(m, n, d1),
{
    lemma_round_scaled(m, n, d2, d1);
    lemma_round_scaled(m, n, d1, d2);
    assert(n * d1 <= n * d2 && d1 * d2 > 0 && d1 * d2 == d2 * d1) by (nonlinear_arith)
        requires
            0 < d1 <= d2,
    ;
    lemma_round_code_monotone(m, n * d1, n * d2, d1 * d2);
}

/// Multiplying scores by a positive finite one gives scores and keeps their order.
proof fn lemma_scale_score(k: Binary32, x: Binary32, y: Binary32)
    requires
        k.is_score(),
        k.is_finite(),
        k.bits > 0,
        x.is_score(),
        y.is_score(),
        x.bits <= y.bits,
    ensures
        k.times(x).is_score(),
        k.times(y).is_score(),
        k.times(x).bits <= k.times(y).bits,
{
    reveal(Binary32::times);
    lemma_formats();
    let f = single();
    let (mk, mx, my) = (k.number().magnitude(f), x.number().magnitude(f), y.number().magnitude(f));
    lemma_pow2_pos(149);
    if x.bits < y.bits {
        lemma_units_strict(23, x.number().code as nat, y.number().code as nat);
    }
    assert(mk * mx <= mk * my) by (nonlinear_arith)
        requires
            mx <= my,
    ;
    lemma_round_code_monotone(23, mk * mx, mk * my, pow2(149));
}

/// Dividing scores by a positive finite one gives scores and keeps their order.
proof fn lemma_over_score(x: Binary32, y: Binary32, d: Binary32)
    requires
        d.is_score(),
        d.is_finite(),
        d.bits > 0,
        x.is_score(),
        y.is_score(),
        x.bits <= y.bits,
    ensures
        x.over(d).is_score(),
        y.over(d).is_score(),
        x.over(d).bits <= y.over(d).bits,
{
    reveal(Binary32::over);
    lemma_formats();
    let f = single();
    let (md, mx, my) = (d.number().magnitude(f), x.number().magnitude(f), y.number().magnitude(f));
    let s = pow2(149);
    lemma_magnitude_zero(f, d.number().code as nat);
    if x.bits < y.bits {
        lemma_units_strict(23, x.number().code as nat, y.number().code as nat);
    }
    assert(mx * s <= my * s) by (nonlinear_arith)
        requires
            mx <= my,
    ;
    lemma_round_code_monotone(23, mx * s, my * s, md);
}

/// Dividing a score by a larger one gives no larger score.
proof fn lemma_over_antitone(x: Binary32, d1: Binary32, d2: Binary32)
    requires
        x.is_score(),
        d1.is_score(),
        d2.is_score(),
        0 < d1.bits <= d2.bits,
    ensures
        x.over(d1).is_score() || x.over(d1).is_nan_spec(),
        x.over(d2).is_score() || x.over(d2).is_nan_spec(),
        x.over(d1).is_nan_spec() ==> x.over(d2).is_nan_spec(),
        x.over(d2).is_nan_spec() || x.over(d2).bits <= x.over(d1).bits,
{
    reveal(Binary32::over);
    lemma_formats();
    vstd::arithmetic::power2::lemma2_to64();
    let f = single();
    let mx = x.number().magnitude(f);
    let (m1, m2) = (d1.number().magnitude(f), d2.number().magnitude(f));
    lemma_magnitude_zero(f, d1.number().code as nat);
    lemma_magnitude_zero(f, d2.number().code as nat);
    if d1.bits < d2.bits {
        lemma_units_strict(23, d1.number().code as nat, d2.number().code as nat);
    }
    if d2.is_finite() {
        lemma_round_antitone(23, mx * pow2(149), m1, m2);
    }
}

/// A longer document never weighs more, whatever the lengths, the frequency and
/// the mean length.
pub proof fn law_longer_documents_weigh_no_more(
    avg: Binary32,
    tf: Binary32,
    dl1: Binary32,
    dl2: Binary32,
)
    requires
        avg.is_score(),
        avg.is_finite(),
        Binary32::zero_spec().before(avg),
        dl1.is_score(),
        dl2.is_score(),
        dl1.at_most(dl2),
    ensures
        bm25_weight(avg, tf, dl2).at_most(bm25_weight(avg, tf, dl1)),
{
    if Binary32::zero_spec().before(tf) {
        let zero = Binary32::zero_spec();
        let (a1, a2) = (b_spec().times(dl1), b_spec().times(dl2));
        lemma_scale_score(b_spec(), dl1, dl2);
        let (c1, c2) = (a1.over(avg), a2.over(avg));
        lemma_over_score(a1, a2, avg);
        let q = one_minus_b_spec();
        let (e1, e2) = (q.plus(c1), q.plus(c2));
        lemma_plus_score(q, c1);
        lemma_plus_score(q, c2);
        lemma_plus_monotone(q, c1, q, c2);
        let (g1, g2) = (k1_spec().times(e1), k1_spec().times(e2));
        lemma_scale_score(k1_spec(), e1, e2);
        let (h1, h2) = (tf.plus(g1), tf.plus(g2));
        lemma_plus_score(tf, g1);
        lemma_plus_score(tf, g2);
        lemma_plus_monotone(tf, g1, tf, g2);
        lemma_positive_plus(tf, g1);
        let n = saturation_spec().times(tf);
        lemma_scale_score(saturation_spec(), tf, tf);
        lemma_over_antitone(n, h1, h2);
    }
}

/// A positive number plus a score is positive.
proof fn lemma_positive_plus(a: Binary32, b: Binary32)
    requires
        a.is_score(),
        b.is_score(),
        Binary32::zero_spec().before(a),
    ensures
        Binary32::zero_spec().before(a.plus(b)),
{
    lemma_plus_score(a, b);
    lemma_formats();
    lemma_magnitude_zero(single(), a.number().code as nat);
    if a.is_finite() && b.is_finite() {
        let n = a.number().magnitude(single()) + b.number().magnitude(single());
        lemma_pow2_pos(23);
        assert(round_code(23, n, 1) > 0);
    }
}

/// Whether `p` differs from `q` by no more than `k` parts in `2^24`.
spec fn near(p: int, q: int, k: int) -> bool {
    0 <= p && 0 <= q && -(k * q) <= (p - q) * 0x100_0000 <= k * q
}

proof fn lemma_near_trans(p: int, q: int, r: int, k: int, j: int)
    requires
        near(p, q, k),
        near(q, r, j),
        0 <= k <= 64,
        0 <= j <= 64,
    ensures
        near(p, r, k + j + 1),
{
    assert(k * (q * 0x100_0000) <= k * (r * 0x100_0000 + j * r)) by (nonlinear_arith)
        requires
            (q - r) * 0x100_0000 <= j * r,
            0 <= k,
    ;
    assert(k * (j * r) <= 4096 * r) by (nonlinear_arith)
        requires
            0 <= k <= 64,
            0 <= j <= 64,
            0 <= r,
    ;
    assert(k * q <= k * r + r) by (nonlinear_arith)
        requires
            k * (q * 0x100_0000) <= k * (r * 0x100_0000 + j * r),
            k * (j * r) <= 4096 * r,
            0 <= r,
    ;
    assert((k + j + 1) * r == k * r + j * r + r) by (nonlinear_arith);
}

proof fn lemma_near_sym(p: int, q: int, k: int)
    requires
        near(p, q, k),
        0 <= k <= 64,
    ensures
        near(q, p, k + 1),
{
    assert(k * q <= (k + 1) * p) by (nonlinear_arith)
        requires
            -(k * q) <= (p - q) * 0x100_0000,
            0 <= p,
            0 <= q,
            0 <= k <= 64,
    ;
}

proof fn lemma_near_scale(p: int, q: int, k: int, c: int)
    requires
        near(p, q, k),
        c >= 0,
    ensures
        near(c * p, c * q, k),
{
    assert(0 <= c * p && 0 <= c * q && -(k * (c * q)) <= (c * p - c * q) * 0x100_0000 <= k * (c
        * q)) by (nonlinear_arith)
        requires
            0 <= p,
            0 <= q,
            -(k * q) <= (p - q) * 0x100_0000 <= k * q,
            c >= 0,
    ;
}

proof fn lemma_near_unscale(p: int, q: int, k: int, c: int)
    requires
        near(c * p, c * q, k),
        c > 0,
        0 <= p,
        0 <= q,
    ensures
        near(p, q, k),
{
    assert(-(k * q) <= (p - q) * 0x100_0000 <= k * q) by (nonlinear_arith)
        requires
            -(k * (c * q)) <= (c * p - c * q) * 0x100_0000 <= k * (c * q),
            c > 0,
    ;
}

proof fn lemma_near_add(p: int, q: int, k: int, c: int)
    requires
        near(p, q, k),
        c >= 0,
        k >= 0,
    ensures
        near(c + p, c + q, k),
{
    assert(k * (c + q) == k * c + k * q && k * c >= 0) by (nonlinear_arith)
        requires
            k >= 0,
            c >= 0,
    ;
}

/// A ratio below `2^276` units does not overflow.
proof fn lemma_no_overflow(n: nat, d: nat)
    requires
        d > 0,
        n <= d * pow2(276),
    ensures
        round_code(23, n, d) < 0x7f80_0000,
{
    vstd::arithmetic::power2::lemma2_to64();
    assert(units(23, 0x7f00_0000) == pow2(276)) by {
        lemma_pow2_adds(23, 253);
    }
    lemma_round_code_exact(23, 0x7f00_0000, d);
    assert(pow2(276) * d == d * pow2(276)) by (nonlinear_arith);
    lemma_round_code_monotone(23, n, d * pow2(276), d);
}

/// How far off a ratio is rounded, in the range of the normal numbers.
proof fn lemma_ratio_near(n: nat, d: nat)
    requires
        d > 0,
        n >= d * pow2(23) || d == 1,
    ensures
        near((units(23, round_code(23, n, d)) * d) as int, n as int, 1),
{
    vstd::arithmetic::power2::lemma2_to64();
    lemma_round_error(23, n, d);
    let r = units(23, round_code(23, n, d)) * d;
    assert(pow2(23 + 1) == 0x100_0000);
    assert(0x100_0000 * r <= (0x100_0000 + 1) * n);
    assert((0x100_0000 - 1) * n <= 0x100_0000 * r);
    assert(r >= 0) by (nonlinear_arith)
        requires
            r == units(23, round_code(23, n, d)) * d,
    ;
    let (ri, ni) = (r as int, n as int);
    assert(-ni <= (ri - ni) * 0x100_0000 <= ni) by (nonlinear_arith)
        requires
            0x100_0000 * ri <= (0x100_0000 + 1) * ni,
            (0x100_0000 - 1) * ni <= 0x100_0000 * ri,
    ;
    assert(1 * ni == ni);
}

/// How far off any ratio is rounded.
proof fn lemma_ratio_error(n: nat, d: nat)
    requires
        d > 0,
    ensures
        ({
            let r = units(23, round_code(23, n, d)) * d;
            -(n + d * 0x80_0000) <= (r - n) * 0x100_0000 <= n + d * 0x80_0000
        }),
{
    vstd::arithmetic::power2::lemma2_to64();
    let r = units(23, round_code(23, n, d)) * d;
    if n >= d * pow2(23) {
        lemma_ratio_near(n, d);
        assert(d * 0x80_0000 >= 0);
    } else {
        let q = nearest_even(n, d);
        assert(n < d * pow2(24)) by (nonlinear_arith)
            requires
                n < d * pow2(23),
                pow2(24) == 2 * pow2(23),
                d > 0,
        ;
        lemma_fundamental_div_mod(n as int, d as int);
        let (a, b) = (n / d, n % d);
        assert(a < 0x80_0000) by (nonlinear_arith)
            requires
                n == d * a + b,
                0 <= b,
                n < d * 0x80_0000,
                d > 0,
        ;
        assert(q == a || q == a + 1);
        assert(units(23, q) == q) by {
            if q == 0x80_0000 {
                assert(pow2(23) == 0x80_0000 && pow2(0) == 1);
                assert(q % pow2(23) == 0 && q / pow2(23) == 1);
                assert((pow2(23) + q % pow2(23)) * pow2(0) == q) by (nonlinear_arith)
                    requires
                        q % pow2(23) == 0,
                        pow2(23) == q,
                        pow2(0) == 1,
                ;
            }
        }
        assert(-(d as int) <= 2 * (q * d - n) <= d) by (nonlinear_arith)
            requires
                n == d * a + b,
                0 <= b < d,
                (q == a && 2 * b <= d) || (q == a + 1 && 2 * b >= d),
        ;
        assert(r == q * d);
    }
}

/// Units of the document weight's constants.
proof fn lemma_constants()
    ensures
        pow2(149) == 4 * pow2(147),
        pow2(149) == 0x80_0000 * pow2(126),
        b_spec().number().magnitude(single()) == 3 * pow2(147),
        one_minus_b_spec().number().magnitude(single()) == pow2(147),
        near(10 * k1_spec().number().magnitude(single()) as int, 12 * pow2(149) as int, 1),
        near(10 * saturation_spec().number().magnitude(single()) as int, 22 * pow2(149) as int, 1),
        k1_spec().number().magnitude(single()) == 10066330 * pow2(126),
        saturation_spec().number().magnitude(single()) == 18454938 * pow2(126),
{
    vstd::arithmetic::power2::lemma2_to64();
    lemma_pow2_adds(2, 147);
    lemma_pow2_adds(23, 126);
    lemma_pow2_adds(22, 125);
    lemma_pow2_adds(23, 124);
    lemma_pow2_unfold(127);
    lemma_pow2_unfold(126);
    let m: nat = 0x80_0000;
    assert(0x3f40_0000nat / m == 126 && 0x3f40_0000nat % m == 0x40_0000);
    assert(0x3e80_0000nat / m == 125 && 0x3e80_0000nat % m == 0);
    assert(0x3f99_999anat / m == 127 && 0x3f99_999anat % m == 0x19_999a);
    assert(0x400c_cccdnat / m == 128 && 0x400c_cccdnat % m == 0x0c_cccd);
    assert((0x80_0000nat + 0x40_0000nat) * pow2(125) == 3 * (0x40_0000nat * pow2(125)))
        by (nonlinear_arith);
    assert(b_spec().number().magnitude(single()) == (0x80_0000nat + 0x40_0000nat) * pow2(125));
    let p = pow2(126) as int;
    lemma_pow2_pos(126);
    assert(saturation_spec().number().magnitude(single()) == 9227469 * pow2(127));
    assert(9227469 * (2 * pow2(126)) == 18454938 * pow2(126)) by (nonlinear_arith);
    assert(near(10 * (10066330 * p), 12 * (0x80_0000 * p), 1));
    assert(near(10 * (18454938 * p), 22 * (0x80_0000 * p), 1));
}

/// How much a number is worth, in units of `2^-149`.
pub open spec fn worth(x: Binary32) -> nat {
    x.number().magnitude(single())
}

proof fn lemma_times_worth(a: Binary32, b: Binary32)
    requires
        a.is_score(),
        a.is_finite(),
        b.is_score(),
        b.is_finite(),
        round_code(23, worth(a) * worth(b), pow2(149)) < 0x7f80_0000,
    ensures
        a.times(b).is_score(),
        a.times(b).is_finite(),
        worth(a.times(b)) == units(23, round_code(23, worth(a) * worth(b), pow2(149))),
{
    reveal(Binary32::times);
    lemma_formats();
}

proof fn lemma_over_worth(a: Binary32, b: Binary32)
    requires
        a.is_score(),
        a.is_finite(),
        b.is_score(),
        b.is_finite(),
        b.bits > 0,
        round_code(23, worth(a) * pow2(149), worth(b)) < 0x7f80_0000,
    ensures
        a.over(b).is_score(),
        a.over(b).is_finite(),
        worth(a.over(b)) == units(23, round_code(23, worth(a) * pow2(149), worth(b))),
{
    reveal(Binary32::over);
    lemma_formats();
}

proof fn lemma_plus_worth(a: Binary32, b: Binary32)
    requires
        a.is_score(),
        a.is_finite(),
        b.is_score(),
        b.is_finite(),
        worth(a) + worth(b) <= pow2(276),
    ensures
        a.plus(b).is_score(),
        a.plus(b).is_finite(),
        near(worth(a.plus(b)) as int, (worth(a) + worth(b)) as int, 1),
{
    lemma_formats();
    lemma_plus_score(a, b);
    let n = worth(a) + worth(b);
    assert(1 * pow2(276) == pow2(276));
    lemma_no_overflow(n, 1);
    lemma_ratio_near(n, 1);
    assert(units(23, round_code(23, n, 1)) * 1 == units(23, round_code(23, n, 1)));
}

proof fn lemma_powers()
    ensures
        pow2(149) == pow2(49) * pow2(100),
        pow2(276) == pow2(149) * pow2(127),
        pow2(127) == pow2(67) * pow2(60),
        pow2(60) == 0x1000_0000_0000_0000,
        pow2(67) >= 0x1000_0000_0000_0000,
        pow2(49) == 0x2_0000_0000_0000,
        pow2(100) >= 0x1000_0000_0000_0000,
        pow2(149) >= pow2(100),
        pow2(147) >= 0x1000_0000_0000_0000,
{
    vstd::arithmetic::power2::lemma2_to64();
    vstd::arithmetic::power2::lemma2_to64_rest();
    lemma_pow2_adds(49, 100);
    lemma_pow2_adds(149, 127);
    lemma_pow2_adds(67, 60);
    lemma_pow2_adds(7, 60);
    lemma_pow2_adds(40, 60);
    lemma_pow2_adds(87, 60);
    lemma_pow2_pos(100);
    lemma_pow2_pos(87);
    assert(pow2(49) * pow2(100) >= pow2(100)) by (nonlinear_arith)
        requires
            pow2(49) >= 1,
            pow2(100) > 0,
    ;
    assert(pow2(7) * pow2(60) >= pow2(60)) by (nonlinear_arith)
        requires
            pow2(7) >= 1,
            pow2(60) > 0,
    ;
    assert(pow2(40) * pow2(60) >= pow2(60)) by (nonlinear_arith)
        requires
            pow2(40) >= 1,
            pow2(60) > 0,
    ;
    assert(pow2(87) * pow2(60) >= pow2(60)) by (nonlinear_arith)
        requires
            pow2(87) >= 1,
            pow2(60) > 0,
    ;
}

/// Three quarters of a length.
proof fn lemma_three_quarters(dl: Binary32) -> (a: nat)
    requires
        dl.is_score(),
        dl.is_finite(),
        worth(dl) == 0 || worth(dl) * pow2(100) >= pow2(149),
    ensures
        b_spec().times(dl).is_score(),
        b_spec().times(dl).is_finite(),
        a == worth(b_spec().times(dl)),
        near(4 * a as int, 3 * worth(dl) as int, 1),
{
    lemma_constants();
    lemma_powers();
    let (s, b, d) = (pow2(149), 3 * pow2(147), worth(dl));
    lemma_pow2_pos(149);
    lemma_pow2_pos(100);
    assert(b * d <= d * s) by (nonlinear_arith)
        requires
            s == 4 * pow2(147),
            b == 3 * pow2(147),
    ;
    lemma_round_code_monotone(23, b * d, d * s, s);
    lemma_round_code_exact(23, dl.number().code as nat, s);
    lemma_times_worth(b_spec(), dl);
    let a = worth(b_spec().times(dl));
    if d == 0 {
        assert(b * d == 0);
        crate::float::lemma_nearest_zero(single(), s);
        lemma_formats();
        lemma_magnitude_zero(single(), 0);
    } else {
        assert(d >= pow2(49)) by (nonlinear_arith)
            requires
                d * pow2(100) >= pow2(49) * pow2(100),
                pow2(100) > 0,
        ;
        vstd::arithmetic::power2::lemma2_to64();
        assert(b * d >= s * pow2(23)) by (nonlinear_arith)
            requires
                b == 3 * pow2(147),
                s == 4 * pow2(147),
                d >= 0x2_0000_0000_0000,
                pow2(23) == 0x80_0000,
        ;
        lemma_ratio_near(b * d, s);
        lemma_near_scale((a * s) as int, (b * d) as int, 1, 4);
        assert(4 * (a * s) == s * (4 * a) && 4 * (b * d) == s * (3 * d)) by (nonlinear_arith)
            requires
                b == 3 * pow2(147),
                s == 4 * pow2(147),
        ;
        lemma_near_unscale(4 * a as int, 3 * d as int, 1, s as int);
    }
    a
}

/// The share of the length in the norm, next to what does not depend on it.
#[verifier::rlimit(60)]
proof fn lemma_length_share(avg: Binary32, dl: Binary32) -> (e: nat)
    requires
        dl.is_score(),
        dl.is_finite(),
        worth(dl) == 0 || worth(dl) * pow2(100) >= pow2(149),
        avg.is_score(),
        avg.is_finite(),
        avg.bits > 0,
        worth(dl) <= worth(avg) * pow2(60),
    ensures
        ({
            let sum = one_minus_b_spec().plus(b_spec().times(dl).over(avg));
            let (s, a, d) = (pow2(149), worth(avg), worth(dl));
            &&& sum.is_score()
            &&& sum.is_finite()
            &&& e == worth(sum)
            &&& near((4 * (e * a)) as int, (s * a + 3 * (d * s)) as int, 5)
            &&& pow2(23) <= e <= pow2(149) * pow2(63)
        }),
{
    let (s, m, d) = (pow2(149), worth(avg), worth(dl));
    let a = lemma_three_quarters(dl);
    lemma_constants();
    lemma_powers();
    vstd::arithmetic::power2::lemma2_to64();
    vstd::arithmetic::power2::lemma2_to64_rest();
    lemma_magnitude_zero(single(), avg.number().code as nat);
    let part = b_spec().times(dl);
    let n = a * s;
    assert(a <= d) by {
        assert(1 * (3 * d as int) == 3 * d);
    }
    assert(n <= m * pow2(60) * s) by (nonlinear_arith)
        requires
            n == a * s,
            a <= m * pow2(60),
    ;
    lemma_pow2_pos(149);
    lemma_pow2_pos(67);
    assert(m * pow2(60) * s <= m * pow2(276)) by (nonlinear_arith)
        requires
            pow2(276) == s * pow2(127),
            pow2(127) == pow2(67) * pow2(60),
            pow2(67) >= 1,
            s > 0,
    ;
    lemma_no_overflow(n, m);
    lemma_over_worth(part, avg);
    let c = worth(part.over(avg));
    lemma_ratio_error(n, m);
    // Four times the share, against three times the length.
    let (x, y) = ((4 * (c * m)) as int, (3 * (d * s)) as int);
    assert(-(7 * (d * s) + s * m) <= (x - y) * 0x100_0000 <= 7 * (d * s) + s * m) by {
        let (p, q) = ((c * m) as int, (a * s) as int);
        assert((4 * a - 3 * d) * 0x100_0000 <= 3 * d && -(3 * d) <= (4 * a - 3 * d) * 0x100_0000)
            by {
            assert(1 * (3 * d as int) == 3 * d);
        }
        assert(-(3 * (d * s)) <= (4 * q - y) * 0x100_0000 <= 3 * (d * s)) by (nonlinear_arith)
            requires
                q == a * s,
                y == 3 * (d * s),
                -(3 * d) <= (4 * a - 3 * d) * 0x100_0000 <= 3 * d,
                s > 0,
        ;
        assert(q <= d * s) by (nonlinear_arith)
            requires
                q == a * s,
                a <= d,
        ;
        assert(4 * (m * 0x80_0000) <= s * m) by (nonlinear_arith)
            requires
                s >= 0x200_0000,
        ;
    }
    assert(near(s * m + x, s * m + y, 3)) by {
        assert(s * m >= 0 && d * s >= 0 && c * m >= 0) by (nonlinear_arith);
        assert(3 * (s * m + y) == 3 * (s * m) + 9 * (d * s));
    }
    let quarter = pow2(147);
    let top = s * pow2(61);
    assert(c <= top + 1) by {
        let p = (c * m) as int;
        assert(p <= 2 * n + m) by (nonlinear_arith)
            requires
                p * 0x100_0000 <= n * 0x100_0000 + n + m * 0x80_0000,
        ;
        lemma_pow2_unfold(61);
        assert(2 * (m * pow2(60) * s) + m == m * (top + 1)) by (nonlinear_arith)
            requires
                top == s * (2 * pow2(60)),
        ;
        assert(c <= top + 1) by (nonlinear_arith)
            requires
                c * m <= m * (top + 1),
                m > 0,
        ;
    }
    assert(top >= s && top >= 1) by (nonlinear_arith)
        requires
            top == s * pow2(61),
            pow2(61) >= 1,
            s >= 1,
    ;
    let n2 = quarter + c;
    assert(n2 <= 3 * top);
    assert(3 * top <= pow2(276)) by (nonlinear_arith)
        requires
            top == s * pow2(61),
            pow2(276) == s * pow2(127),
            pow2(127) == pow2(67) * pow2(60),
            pow2(67) >= 0x1000_0000_0000_0000,
            pow2(60) == 0x1000_0000_0000_0000,
            pow2(61) == 0x2000_0000_0000_0000,
            s >= 1,
    ;
    lemma_plus_worth(one_minus_b_spec(), part.over(avg));
    let e = worth(one_minus_b_spec().plus(part.over(avg)));
    lemma_near_scale(e as int, n2 as int, 1, 4 * m as int);
    assert(4 * m * e == 4 * (e * m) && 4 * m * n2 == s * m + 4 * (c * m)) by (nonlinear_arith)
        requires
            n2 == quarter + c,
            s == 4 * quarter,
    ;
    lemma_near_trans(4 * (e * m) as int, s * m + x, s * m + y, 1, 3);
    assert(1 * (n2 as int) == n2);
    lemma_pow2_unfold(62);
    lemma_pow2_unfold(63);
    assert(s * pow2(63) == 4 * top) by (nonlinear_arith)
        requires
            top == s * pow2(61),
            pow2(63) == 4 * pow2(61),
    ;
    e
}

/// A constant that is close to `c / 10`, times a number.
#[verifier::rlimit(60)]
proof fn lemma_tenths(k: Binary32, x: Binary32, c: int) -> (g: nat)
    requires
        k.is_score(),
        k.is_finite(),
        x.is_score(),
        x.is_finite(),
        near(10 * worth(k) as int, c * pow2(149) as int, 1),
        0 < c <= 22,
        pow2(149) <= worth(k) <= 4 * pow2(149),
        pow2(23) <= worth(x) <= pow2(149) * pow2(121),
    ensures
        k.times(x).is_score(),
        k.times(x).is_finite(),
        g == worth(k.times(x)),
        near(10 * g as int, c * worth(x) as int, 3),
        g <= 3 * worth(x),
{
    let (s, m, e) = (pow2(149), worth(k), worth(x));
    lemma_powers();
    vstd::arithmetic::power2::lemma2_to64();
    vstd::arithmetic::power2::lemma2_to64_rest();
    lemma_pow2_pos(149);
    lemma_pow2_adds(6, 121);
    let n = m * e;
    assert(s * pow2(23) <= n) by (nonlinear_arith)
        requires
            n == m * e,
            m >= s,
            e >= pow2(23),
    ;
    assert(n <= s * (4 * (s * pow2(121)))) by (nonlinear_arith)
        requires
            n == m * e,
            m <= 4 * s,
            e <= s * pow2(121),
    ;
    assert(4 * (s * pow2(121)) <= pow2(276)) by (nonlinear_arith)
        requires
            pow2(276) == s * pow2(127),
            pow2(127) == 64 * pow2(121),
            s >= 1,
    ;
    assert(n <= s * pow2(276)) by (nonlinear_arith)
        requires
            n <= s * (4 * (s * pow2(121))),
            4 * (s * pow2(121)) <= pow2(276),
            s >= 1,
    ;
    lemma_no_overflow(n, s);
    lemma_times_worth(k, x);
    lemma_ratio_near(n, s);
    let g = worth(k.times(x));
    lemma_near_scale((g * s) as int, n as int, 1, 10);
    lemma_near_scale(10 * m as int, c * s as int, 1, e as int);
    assert(10 * (g * s) == s * (10 * g) && 10 * n == e * (10 * m) && e * (c * s) == s * (c * e))
        by (nonlinear_arith)
        requires
            n == m * e,
    ;
    lemma_near_trans(10 * (g * s) as int, 10 * n as int, e * (c * s), 1, 1);
    assert(c * e >= 0) by (nonlinear_arith)
        requires
            c > 0,
            e >= 0,
    ;
    lemma_near_unscale(10 * g as int, c * e as int, 3, s as int);
    assert(3 * (c * e as int) <= 66 * e && c * e <= 22 * e) by (nonlinear_arith)
        requires
            0 < c <= 22,
            e >= 0,
    ;
    g
}

/// The norm and the frequency together, against `10 tf avg + 3 avg + 9 dl`.
#[verifier::rlimit(60)]
proof fn lemma_divisor(avg: Binary32, tf: Binary32, dl: Binary32) -> (h: nat)
    requires
        dl.is_score(),
        dl.is_finite(),
        worth(dl) == 0 || worth(dl) * pow2(100) >= pow2(149),
        avg.is_score(),
        avg.is_finite(),
        avg.bits > 0,
        worth(dl) <= worth(avg) * pow2(60),
        tf.is_score(),
        tf.is_finite(),
        worth(tf) <= pow2(149) * pow2(120),
    ensures
        ({
            let norm = k1_spec().times(one_minus_b_spec().plus(b_spec().times(dl).over(avg)));
            let sum = tf.plus(norm);
            let (s, a, d, t) = (pow2(149), worth(avg), worth(dl), worth(tf));
            &&& sum.is_score()
            &&& sum.is_finite()
            &&& h == worth(sum)
            &&& near((10 * (h * a)) as int, (10 * (t * a) + 3 * (s * a) + 9 * (d * s)) as int, 11)
            &&& 0 < h <= 2 * t + pow2(149) * pow2(66)
            &&& t <= 2 * h
        }),
{
    let (s, a, d, t) = (pow2(149), worth(avg), worth(dl), worth(tf));
    let e = lemma_length_share(avg, dl);
    lemma_constants();
    lemma_powers();
    vstd::arithmetic::power2::lemma2_to64();
    vstd::arithmetic::power2::lemma2_to64_rest();
    lemma_pow2_pos(126);
    let share = one_minus_b_spec().plus(b_spec().times(dl).over(avg));
    lemma_pow2_adds(58, 63);
    assert(s * pow2(63) <= s * pow2(121)) by (nonlinear_arith)
        requires
            pow2(121) == pow2(58) * pow2(63),
            pow2(58) >= 1,
            pow2(63) >= 0,
            s >= 0,
    ;
    let g = lemma_tenths(k1_spec(), share, 12);
    let norm = k1_spec().times(share);
    lemma_near_scale(10 * g as int, 12 * e as int, 3, 4 * a as int);
    lemma_near_scale((4 * (e * a)) as int, (s * a + 3 * (d * s)) as int, 5, 12);
    assert(4 * a * (10 * g) == 4 * (10 * (g * a)) && 4 * a * (12 * e) == 12 * (4 * (e * a))) by (
    nonlinear_arith);
    lemma_near_trans(
        4 * (10 * (g * a)) as int,
        12 * (4 * (e * a)) as int,
        12 * (s * a + 3 * (d * s)) as int,
        3,
        5,
    );
    let low = (3 * (s * a) + 9 * (d * s)) as int;
    assert(s * a >= 0 && d * s >= 0 && t * a >= 0 && g * a >= 0) by (nonlinear_arith);
    assert(12 * (s * a + 3 * (d * s)) == 4 * low);
    lemma_near_unscale((10 * (g * a)) as int, low, 9, 4);
    lemma_near_add((10 * (g * a)) as int, low, 9, (10 * (t * a)) as int);
    lemma_pow2_adds(3, 63);
    lemma_pow2_adds(57, 63);
    lemma_pow2_adds(7, 120);
    let (t63, t66, t120) = (s * pow2(63), s * pow2(66), s * pow2(120));
    assert(t66 == 8 * t63 && t63 <= t120 && 128 * t120 == pow2(276)) by (nonlinear_arith)
        requires
            t63 == s * pow2(63),
            t66 == s * pow2(66),
            t120 == s * pow2(120),
            pow2(66) == 8 * pow2(63),
            pow2(120) == pow2(57) * pow2(63),
            pow2(57) >= 1,
            pow2(276) == s * pow2(127),
            pow2(127) == 128 * pow2(120),
            s >= 1,
    ;
    lemma_plus_worth(tf, norm);
    let h = worth(tf.plus(norm));
    let n = t + g;
    lemma_near_scale(h as int, n as int, 1, 10 * a as int);
    assert(10 * a * h == 10 * (h * a) && 10 * a * n == 10 * (t * a) + 10 * (g * a)) by (
    nonlinear_arith)
        requires
            n == t + g,
    ;
    lemma_near_trans(
        (10 * (h * a)) as int,
        (10 * (t * a) + 10 * (g * a)) as int,
        10 * (t * a) + low,
        1,
        9,
    );
    assert(1 * (n as int) == n);
    assert(3 * (12 * e as int) == 36 * e);
    assert(g > 0);
    h
}

/// A document weight is as close to its formula as rounding admits: for every
/// frequency from `2^-60` to `2^120`, every mean length, and every length of zero
/// or from `2^-100` up to `2^60` times the mean, it lies within one part in `2^19`
/// of `(K1 + 1) * tf / (tf + K1 * (1 - B + B * dl / avg))` with `K1 = 1.2` and
/// `B = 0.75`, which is `22 * tf * avg / (10 * tf * avg + 3 * avg + 9 * dl)`.
#[verifier::rlimit(60)]
pub proof fn law_doc_weight_value(avg: Binary32, tf: Binary32, dl: Binary32)
    requires
        dl.is_score(),
        dl.is_finite(),
        worth(dl) == 0 || worth(dl) * pow2(100) >= pow2(149),
        avg.is_score(),
        avg.is_finite(),
        avg.bits > 0,
        worth(dl) <= worth(avg) * pow2(60),
        tf.is_score(),
        tf.is_finite(),
        pow2(149) <= worth(tf) * pow2(60),
        worth(tf) <= pow2(149) * pow2(120),
    ensures
        ({
            let (one, a, d, t) = (pow2(149), worth(avg), worth(dl), worth(tf));
            let w = worth(bm25_weight(avg, tf, dl));
            let left = w * (10 * (t * a) + 3 * (one * a) + 9 * (d * one));
            let right = 22 * (t * a) * one;
            -right <= (left - right) * 0x8_0000 <= right
        }),
{
    let (s, a, d, t) = (pow2(149), worth(avg), worth(dl), worth(tf));
    let h = lemma_divisor(avg, tf, dl);
    let norm = k1_spec().times(one_minus_b_spec().plus(b_spec().times(dl).over(avg)));
    let sum = tf.plus(norm);
    lemma_constants();
    lemma_powers();
    vstd::arithmetic::power2::lemma2_to64();
    vstd::arithmetic::power2::lemma2_to64_rest();
    lemma_pow2_pos(126);
    lemma_pow2_pos(149);
    lemma_magnitude_zero(single(), tf.number().code as nat);
    lemma_magnitude_zero(single(), sum.number().code as nat);
    lemma_magnitude_zero(single(), avg.number().code as nat);
    let t89 = pow2(89);
    lemma_pow2_adds(89, 60);
    lemma_pow2_adds(66, 23);
    lemma_pow2_pos(60);
    assert(t >= t89) by (nonlinear_arith)
        requires
            t * pow2(60) >= t89 * pow2(60),
            pow2(60) > 0,
    ;
    assert(t89 >= pow2(23)) by (nonlinear_arith)
        requires
            t89 == pow2(66) * pow2(23),
            pow2(66) >= 1,
            pow2(23) >= 1,
    ;
    lemma_pow2_unfold(121);
    lemma_pow2_pos(120);
    assert(s * pow2(120) <= s * pow2(121)) by (nonlinear_arith)
        requires
            pow2(120) <= pow2(121),
            s >= 0,
    ;
    let n = lemma_tenths(saturation_spec(), tf, 22);
    let top = saturation_spec().times(tf);
    // The quotient is normal and does not overflow.
    let ns = n * s;
    assert(3 * (22 * t as int) == 66 * t);
    assert(n >= 2 * t && n <= 3 * t);
    assert(ns >= h * pow2(23)) by {
        assert(h * pow2(23) <= 0x100_0000 * t + s * t89) by (nonlinear_arith)
            requires
                h <= 2 * t + s * pow2(66),
                pow2(23) == 0x80_0000,
                t89 == pow2(66) * pow2(23),
        ;
        assert(0x100_0000 * t + s * t89 <= 2 * t * s) by (nonlinear_arith)
            requires
                s >= 0x100_0000,
                t >= t89,
                t89 >= 0,
        ;
        assert(2 * t * s <= n * s) by (nonlinear_arith)
            requires
                2 * t <= n,
                s >= 0,
        ;
    }
    assert(ns <= h * pow2(276)) by {
        assert(t <= 2 * h);
        assert(n * s <= 6 * h * s) by (nonlinear_arith)
            requires
                n <= 6 * h,
                s >= 0,
        ;
        assert(6 * h * s <= h * (s * pow2(127))) by (nonlinear_arith)
            requires
                pow2(127) >= 6,
                h >= 0,
                s >= 0,
        ;
    }
    lemma_no_overflow(ns, h);
    lemma_over_worth(top, sum);
    lemma_ratio_near(ns, h);
    let raw = top.over(sum);
    let w = worth(raw);
    let q = (10 * (t * a) + 3 * (s * a) + 9 * (d * s)) as int;
    let right = (22 * (t * a) * s) as int;
    lemma_near_scale((w * h) as int, ns as int, 1, 10 * a as int);
    lemma_near_scale(10 * n as int, 22 * t as int, 3, (a * s) as int);
    assert(10 * a * (w * h) == w * (10 * (h * a)) && 10 * a * ns == a * s * (10 * n) && a * s * (22
        * t) == right) by (nonlinear_arith)
        requires
            ns == n * s,
            right == 22 * (t * a) * s,
    ;
    let wide = w * (10 * (h * a));
    lemma_near_trans(wide as int, (a * s * (10 * n)) as int, right, 1, 3);
    lemma_near_scale((10 * (h * a)) as int, q, 11, w as int);
    lemma_near_sym(wide as int, w * q, 11);
    lemma_near_trans(w * q, wide as int, right, 12, 5);
    assert(18 * right == right * 18);
    assert(-right <= (w * q - right) * 0x8_0000 <= right) by (nonlinear_arith)
        requires
            -(18 * right) <= (w * q - right) * 0x100_0000 <= 18 * right,
            right >= 0,
    ;
    let high = doc_weight_ceiling();
    assert(raw.bits > 0) by {
        if raw.bits == 0 {
            assert(w == 0);
            assert(right > 0) by (nonlinear_arith)
                requires
                    right == 22 * (t * a) * s,
                    t > 0,
                    a > 0,
                    s > 0,
            ;
            assert(0 * q == 0);
        }
    }
    if high.before(raw) {
        let c = worth(high);
        lemma_units_strict(23, high.number().code as nat, raw.number().code as nat);
        assert(10 * c >= 22 * s) by {
            lemma_pow2_unfold(127);
            assert(0x400c_ccd1nat / 0x80_0000nat == 128 && 0x400c_ccd1nat % 0x80_0000nat == 0x0c_ccd1);
            assert(c == 9227473 * pow2(127));
        }
        assert(c * q <= w * q) by (nonlinear_arith)
            requires
                c <= w,
                q >= 0,
        ;
        assert(c * q >= right) by (nonlinear_arith)
            requires
                10 * c >= 22 * s,
                q >= 10 * (t * a),
                right == 22 * (t * a) * s,
                t * a >= 0,
                c >= 0,
        ;
    }
}

/// What a finite number is worth, with its sign.
pub open spec fn signed_worth(x: Binary32) -> int {
    if x.number().negative {
        -(worth(x) as int)
    } else {
        worth(x) as int
    }
}

/// How far apart two integers lie.
pub open spec fn apart(x: int, y: int) -> int {
    if x >= y {
        x - y
    } else {
        y - x
    }
}

/// A sum of finite numbers that does not overflow is the nearest one to the exact
/// sum: no finite number is nearer.
pub proof fn law_sums_are_nearest(a: Binary32, b: Binary32, x: Binary32)
    requires
        a.is_finite(),
        b.is_finite(),
        a.plus(b).is_finite(),
    ensures
        apart(signed_worth(a.plus(b)), signed_worth(a) + signed_worth(b)) <= apart(
            signed_worth(x),
            signed_worth(a) + signed_worth(b),
        ),
{
    reveal(Binary32::plus);
    lemma_formats();
    let v = signed_worth(a) + signed_worth(b);
    let n = vstd::math::abs(v);
    lemma_magnitude_zero(single(), 0);
    law_rounds_to_nearest(23, n, 1, x.number().code as nat);
    law_rounds_to_nearest(23, n, 1, 0);
    assert(worth(x) * 1 == worth(x));
    assert(units(23, round_code(23, n, 1)) * 1 == units(23, round_code(23, n, 1)));
}

/// A product of finite numbers that does not overflow has the sign that it should
/// have and is the nearest one to the exact product.
pub proof fn law_products_are_nearest(a: Binary32, b: Binary32, x: Binary32)
    requires
        a.is_finite(),
        b.is_finite(),
        a.times(b).is_finite(),
    ensures
        a.times(b).number().negative == (a.number().negative != b.number().negative),
        distance(worth(a.times(b)), pow2(149), worth(a) * worth(b)) <= distance(
            worth(x),
            pow2(149),
            worth(a) * worth(b),
        ),
{
    reveal(Binary32::times);
    lemma_formats();
    lemma_pow2_pos(149);
    law_rounds_to_nearest(23, worth(a) * worth(b), pow2(149), x.number().code as nat);
}

/// A quotient of finite numbers that does not overflow has the sign that it should
/// have and is the nearest one to the exact quotient.
pub proof fn law_quotients_are_nearest(a: Binary32, b: Binary32, x: Binary32)
    requires
        a.is_finite(),
        b.is_finite(),
        b.number().code > 0,
        a.over(b).is_finite(),
    ensures
        a.over(b).number().negative == (a.number().negative != b.number().negative),
        distance(worth(a.over(b)), worth(b), worth(a) * pow2(149)) <= distance(
            worth(x),
            worth(b),
            worth(a) * pow2(149),
        ),
{
    reveal(Binary32::over);
    lemma_formats();
    lemma_magnitude_zero(single(), b.number().code as nat);
    law_rounds_to_nearest(23, worth(a) * pow2(149), worth(b), x.number().code as nat);
}

/// A count becomes the number that is nearest to it.
pub proof fn law_counts_are_nearest(count: u32, x: Binary32)
    ensures
        Binary32::of_count(count).is_score(),
        Binary32::of_count(count).is_finite(),
        apart(worth(Binary32::of_count(count)) as int, count * pow2(149)) <= apart(
            worth(x) as int,
            count * pow2(149),
        ),
{
    reveal(Binary32::of_count);
    lemma_formats();
    vstd::arithmetic::power2::lemma2_to64();
    let n = count as nat * pow2(149);
    lemma_pow2_pos(149);
    lemma_pow2_adds(32, 149);
    lemma_pow2_adds(95, 181);
    lemma_pow2_pos(181);
    lemma_pow2_pos(95);
    assert(n <= pow2(181)) by (nonlinear_arith)
        requires
            n == count as nat * pow2(149),
            count < 0x1_0000_0000,
            pow2(181) == 0x1_0000_0000 * pow2(149),
            pow2(149) > 0,
    ;
    assert(pow2(95) * pow2(181) >= pow2(181)) by (nonlinear_arith)
        requires
            pow2(95) >= 1,
            pow2(181) > 0,
    ;
    assert(1 * pow2(276) == pow2(276));
    lemma_no_overflow(n, 1);
    law_rounds_to_nearest(23, n, 1, x.number().code as nat);
    assert(worth(x) * 1 == worth(x));
    assert(units(23, round_code(23, n, 1)) * 1 == units(23, round_code(23, n, 1)));
}

/// Numbers compare by what they are worth, and what is not a number does not
/// compare at all.
pub proof fn law_order_is_by_worth(a: Binary32, b: Binary32)
    ensures
        a.is_nan_spec() || b.is_nan_spec() ==> !a.before(b) && !a.at_most(b),
        !a.is_nan_spec() && !b.is_nan_spec() ==> (a.before(b) <==> signed_worth(a) < signed_worth(
            b,
        )) && (a.at_most(b) <==> signed_worth(a) <= signed_worth(b)),
{
    let (x, y) = (a.number().code as nat, b.number().code as nat);
    lemma_magnitude_zero(single(), x);
    lemma_magnitude_zero(single(), y);
    if x < y {
        lemma_units_strict(23, x, y);
    } else if y < x {
        lemma_units_strict(23, y, x);
    }
}

} // verus!
