//! When a sum of scores cannot reach a floor.
//!
//! Scores are summed with rounding, and in different orders by different
//! callers, so a bound on a sum is widened before it is compared.
use crate::binary::double;
use crate::binary::lemma_formats;
use crate::binary::lemma_plus_monotone;
use crate::binary::lemma_plus_nan;
use crate::binary::lemma_plus_score;
use crate::binary::single;
use crate::binary::Binary32;
use crate::binary::Binary64;
use crate::float::lemma_magnitude_zero;
use crate::float::lemma_nearest_zero;
use crate::float::lemma_sum_error;
use crate::float::lemma_sum_nonnegative;
use crate::rounding::lemma_parts_of_code;
use crate::rounding::lemma_round_dyadic;
use crate::rounding::lemma_round_error;
use crate::rounding::lemma_units_strict;
use crate::rounding::round_code;
use crate::rounding::units;
use vstd::arithmetic::power2::lemma_pow2_adds;
use vstd::arithmetic::power2::lemma_pow2_pos;
use vstd::arithmetic::power2::lemma_pow2_strictly_increases;
use vstd::arithmetic::power2::pow2;
use vstd::prelude::*;

verus! {

/// Scores added from the left, starting from zero.
pub open spec fn total(scores: Seq<Binary32>) -> Binary32
    decreases scores.len(),
{
    if scores.len() == 0 {
        Binary32::zero_spec()
    } else {
        total(scores.drop_last()).plus(scores.last())
    }
}

/// Ceilings added from the left with 53 significant bits, starting from zero.
pub open spec fn ceiling_total(ceilings: Seq<Binary32>) -> Binary64
    decreases ceilings.len(),
{
    if ceilings.len() == 0 {
        Binary64::zero_spec()
    } else {
        ceiling_total(ceilings.drop_last()).plus(ceilings.last().widened())
    }
}

/// Ceilings of zero add up to zero.
pub proof fn lemma_zero_ceilings(ceilings: Seq<Binary32>)
    requires
        forall|i: int| 0 <= i < ceilings.len() ==> #[trigger] ceilings[i] == Binary32::zero_spec(),
    ensures
        ceiling_total(ceilings) == Binary64::zero_spec(),
    decreases ceilings.len(),
{
    if ceilings.len() > 0 {
        let init = ceilings.drop_last();
        assert forall|i: int| 0 <= i < init.len() implies #[trigger] init[i]
            == Binary32::zero_spec() by {
            assert(init[i] == ceilings[i]);
        }
        lemma_zero_ceilings(init);
        assert(ceilings[ceilings.len() - 1] == Binary32::zero_spec());
        reveal(Binary32::widened);
        reveal(Binary64::plus);
        lemma_formats();
        lemma_magnitude_zero(single(), 0);
        lemma_magnitude_zero(double(), 0);
        lemma_nearest_zero(double(), 1);
        assert(0 * pow2(925) == 0);
    }
}

/// The most terms that a finite widening factor is given for.
pub const MAX_WIDENED_TERMS: usize = 0x10_0000;

/// `1 + n / 2^22`, or infinity where there are too many terms for that to be enough.
pub open spec fn sum_factor(num_terms: nat) -> Binary64 {
    if num_terms <= MAX_WIDENED_TERMS {
        Binary64 { bits: (0x3ff0_0000_0000_0000 + num_terms * 0x4000_0000) as u64 }
    } else {
        Binary64 { bits: 0x7ff0_0000_0000_0000 }
    }
}

/// Whether `partial` plus `rest`, widened by `factor`, is no more than `floor`.
pub open spec fn cannot_compete(
    partial: Binary32,
    rest: Binary64,
    floor: Binary32,
    factor: Binary64,
) -> bool {
    partial.widened().plus(rest).times(factor).at_most(floor.widened())
}

/// The factor by which a sum of `num_terms` ceilings has to be widened to
/// dominate the rounded sum of as many scores below them, in any order.
pub fn score_sum_upper_bound_factor(num_terms: usize) -> (factor: Binary64)
    ensures
        factor == sum_factor(num_terms as nat),
{
    if num_terms <= MAX_WIDENED_TERMS {
        Binary64::from_bits(0x3ff0_0000_0000_0000 + num_terms as u64 * 0x4000_0000)
    } else {
        Binary64::from_bits(0x7ff0_0000_0000_0000)
    }
}

/// Whether a score made of `partial` and at most `rest` more stays within `floor`
/// when it is widened by `factor`. That makes sure of scores that nothing has
/// lowered; a negative sum is moved down, not up.
pub fn score_sum_cannot_compete(
    partial: Binary32,
    rest: Binary64,
    floor: Binary32,
    factor: Binary64,
) -> (yes: bool)
    ensures
        yes == cannot_compete(partial, rest, floor, factor),
{
    partial.widen().add(rest).mul(factor).le(floor.widen())
}

/// The magnitude in units of the smallest number with 24 significant bits.
spec fn mag(x: Binary32) -> nat {
    units(23, x.number().code as nat)
}

/// The magnitude in units of the smallest number with 53 significant bits.
spec fn wide_mag(x: Binary64) -> nat {
    units(52, x.number().code as nat)
}

/// The sum of the magnitudes, without rounding.
spec fn exact(scores: Seq<Binary32>) -> nat
    decreases scores.len(),
{
    if scores.len() == 0 {
        0
    } else {
        exact(scores.drop_last()) + mag(scores.last())
    }
}

/// Numbers that are not negative.
pub open spec fn nonnegative(scores: Seq<Binary32>) -> bool {
    forall|i: int|
        0 <= i < scores.len() ==> !(#[trigger] scores[i]).is_nan_spec() && scores[i].key() >= 0
}

spec fn all_finite(scores: Seq<Binary32>) -> bool {
    forall|i: int| 0 <= i < scores.len() ==> (#[trigger] scores[i]).is_finite()
}

/// The sum of numbers that are not negative is a score.
pub proof fn lemma_total_is_score(scores: Seq<Binary32>)
    requires
        nonnegative(scores),
    ensures
        total(scores).is_score(),
    decreases scores.len(),
{
    if scores.len() > 0 {
        lemma_total_is_score(scores.drop_last());
        lemma_plus_score(total(scores.drop_last()), scores.last());
    }
}

/// How far a rounded sum can lie above and below the exact one.
#[verifier::rlimit(60)]
proof fn lemma_total_error(scores: Seq<Binary32>)
    requires
        nonnegative(scores),
        scores.len() <= MAX_WIDENED_TERMS,
    ensures
        total(scores).is_score(),
        all_finite(scores) ==> mag(total(scores)) * 0x100_0000 <= exact(scores) * (0x100_0000 + 2
            * scores.len()),
        total(scores).is_finite() ==> all_finite(scores) && exact(scores) * (0x100_0000
            - scores.len()) <= mag(total(scores)) * 0x100_0000,
    decreases scores.len(),
{
    lemma_magnitude_zero(single(), 0);
    vstd::arithmetic::power2::lemma2_to64();
    lemma_formats();
    if scores.len() > 0 {
        let init = scores.drop_last();
        let k = init.len();
        let (a, b) = (total(init), scores.last());
        lemma_total_error(init);
        lemma_plus_score(a, b);
        let r = a.plus(b);
        let (ma, mb, mr) = (mag(a), mag(b), mag(r));
        let (s0, s1) = (exact(init), exact(scores));
        assert(all_finite(scores) ==> all_finite(init));
        assert forall|i: int| 0 <= i < scores.len() && all_finite(init) && b.is_finite() implies (
        #[trigger] scores[i]).is_finite() by {
            if i < init.len() {
                assert(scores[i] == init[i]);
            }
        }
        if a.is_finite() && b.is_finite() {
            lemma_sum_error(single(), ma + mb);
            if all_finite(scores) {
                assert(mr * 0x100_0000 <= s1 * (0x100_0000 + 2 * (k + 1))) by (nonlinear_arith)
                    requires
                        0x100_0000 * mr <= (0x100_0000 + 1) * (ma + mb),
                        ma * 0x100_0000 <= s0 * (0x100_0000 + 2 * k),
                        s1 == s0 + mb,
                        k <= 0x10_0000,
                ;
            }
            if r.is_finite() {
                assert(s1 * (0x100_0000 - (k + 1)) <= mr * 0x100_0000) by (nonlinear_arith)
                    requires
                        (0x100_0000 - 1) * (ma + mb) <= 0x100_0000 * mr,
                        s0 * (0x100_0000 - k) <= ma * 0x100_0000,
                        s1 == s0 + mb,
                        k <= 0x10_0000,
                ;
            }
        } else if all_finite(scores) {
            // `a` overflowed before; the sum stays where it is.
            assert(scores.last() == scores[scores.len() - 1]);
            assert(mr == ma);
            assert(s0 * (0x100_0000 + 2 * k) <= s1 * (0x100_0000 + 2 * (k + 1))) by (nonlinear_arith)
                requires
                    s0 <= s1,
            ;
        }
    }
}

/// Widening is exact.
proof fn lemma_widened(x: Binary32)
    requires
        !x.is_nan_spec(),
    ensures
        !x.widened().is_nan_spec(),
        x.widened().number().negative == x.number().negative,
        x.is_finite() <==> x.widened().number().code < 0x7ff0_0000_0000_0000,
        x.is_finite() ==> wide_mag(x.widened()) == mag(x) * pow2(925),
{
    reveal(Binary32::widened);
    lemma_formats();
    if x.is_finite() {
        let code = x.number().code as nat;
        let (k, q) = lemma_parts_of_code(23, code);
        lemma_pow2_adds(k, 925);
        lemma_pow2_strictly_increases(24, 53);
        let n = mag(x) * pow2(925);
        assert(n == q * pow2(k + 925)) by (nonlinear_arith)
            requires
                n == (q * pow2(k)) * pow2(925),
                pow2(k + 925) == pow2(k) * pow2(925),
        ;
        lemma_round_dyadic(52, q, k + 925);
        // The largest value is far below infinity in the wider format.
        lemma_units_strict(23, code, 0x7f80_0000);
        lemma_infinities();
        let wide = round_code(52, n, 1);
        if wide >= 0x7ff0_0000_0000_0000 {
            if wide > 0x7ff0_0000_0000_0000 {
                lemma_units_strict(52, 0x7ff0_0000_0000_0000, wide);
            }
            lemma_pow2_pos(925);
            assert(n < pow2(277) * pow2(925)) by (nonlinear_arith)
                requires
                    n == mag(x) * pow2(925),
                    mag(x) < pow2(277),
                    pow2(925) > 0,
            ;
            lemma_pow2_adds(277, 925);
            lemma_pow2_strictly_increases(1202, 2098);
        }
    }
}

/// What infinity would be worth.
proof fn lemma_infinities()
    ensures
        units(23, 0x7f80_0000) == pow2(277),
        units(52, 0x7ff0_0000_0000_0000) == pow2(2098),
{
    vstd::arithmetic::power2::lemma2_to64();
    vstd::arithmetic::power2::lemma2_to64_rest();
    lemma_pow2_adds(23, 254);
    lemma_pow2_adds(52, 2046);
}

/// Widening keeps the order.
proof fn lemma_widened_monotone(a: Binary32, b: Binary32)
    requires
        a.at_most(b),
    ensures
        a.widened().at_most(b.widened()),
{
    lemma_widened(a);
    lemma_widened(b);
    lemma_widened_zero(a);
    lemma_widened_zero(b);
    if a.number().code <= b.number().code {
        lemma_widened_magnitudes(a, b);
    } else {
        lemma_widened_magnitudes(b, a);
    }
}

proof fn lemma_widened_magnitudes(a: Binary32, b: Binary32)
    requires
        !a.is_nan_spec(),
        !b.is_nan_spec(),
        a.number().code <= b.number().code,
    ensures
        a.widened().number().code <= b.widened().number().code,
{
    lemma_widened(a);
    lemma_widened(b);
    if b.is_finite() {
        let (wa, wb) = (a.widened().number().code as nat, b.widened().number().code as nat);
        if a.number().code < b.number().code {
            lemma_units_strict(23, a.number().code as nat, b.number().code as nat);
        }
        assert(mag(a) * pow2(925) <= mag(b) * pow2(925)) by (nonlinear_arith)
            requires
                mag(a) <= mag(b),
        ;
        if wa > wb {
            lemma_units_strict(52, wb, wa);
        }
    }
}

/// A higher floor rules out whatever a lower one does.
pub proof fn lemma_cannot_compete_monotone(
    partial: Binary32,
    rest: Binary64,
    low: Binary32,
    high: Binary32,
    factor: Binary64,
)
    requires
        cannot_compete(partial, rest, low, factor),
        low.at_most(high),
    ensures
        cannot_compete(partial, rest, high, factor),
{
    lemma_widened_monotone(low, high);
}

/// How far a rounded sum of ceilings can lie below the exact one.
#[verifier::rlimit(60)]
proof fn lemma_ceiling_total_error(ceilings: Seq<Binary32>)
    requires
        nonnegative(ceilings),
        ceilings.len() <= MAX_WIDENED_TERMS,
    ensures
        ceiling_total(ceilings).bits <= 0x7ff0_0000_0000_0000,
        ceiling_total(ceilings).bits < 0x7ff0_0000_0000_0000 ==> all_finite(ceilings) && exact(
            ceilings,
        ) * pow2(925) * (0x20_0000_0000_0000 - ceilings.len()) <= wide_mag(
            ceiling_total(ceilings),
        ) * 0x20_0000_0000_0000,
    decreases ceilings.len(),
{
    vstd::arithmetic::power2::lemma2_to64();
    vstd::arithmetic::power2::lemma2_to64_rest();
    lemma_formats();
    lemma_magnitude_zero(double(), 0);
    if ceilings.len() == 0 {
        assert(0 * pow2(925) == 0);
        assert(exact(ceilings) * pow2(925) * 0x20_0000_0000_0000 == 0) by (nonlinear_arith)
            requires
                exact(ceilings) == 0,
        ;
    } else {
        let init = ceilings.drop_last();
        let k = init.len();
        let (a, b) = (ceiling_total(init), ceilings.last().widened());
        assert(ceilings.last() == ceilings[ceilings.len() - 1]);
        assert forall|i: int| 0 <= i < init.len() implies !(#[trigger] init[i]).is_nan_spec()
            && init[i].key() >= 0 by {
            assert(init[i] == ceilings[i]);
        }
        lemma_ceiling_total_error(init);
        lemma_widened(ceilings.last());
        lemma_widened_zero(ceilings.last());
        reveal(Binary64::plus);
        lemma_sum_nonnegative(double(), a.number(), b.number());
        let r = a.plus(b);
        assert(r.number() == crate::float::sum(double(), a.number(), b.number()));
        if r.bits < 0x7ff0_0000_0000_0000 {
            let (ma, mb, mr) = (wide_mag(a), wide_mag(b), wide_mag(r));
            lemma_sum_error(double(), ma + mb);
            let w = pow2(925);
            let (s0, s1, x) = (exact(init), exact(ceilings), mag(ceilings.last()));
            let (e0, e1) = (s0 * w, s1 * w);
            assert(e1 == e0 + mb) by (nonlinear_arith)
                requires
                    s1 == s0 + x,
                    mb == x * w,
                    e0 == s0 * w,
                    e1 == s1 * w,
            ;
            assert(e1 * (0x20_0000_0000_0000 - (k + 1)) <= mr * 0x20_0000_0000_0000)
                by (nonlinear_arith)
                requires
                    (0x20_0000_0000_0000 - 1) * (ma + mb) <= 0x20_0000_0000_0000 * mr,
                    e0 * (0x20_0000_0000_0000 - k) <= ma * 0x20_0000_0000_0000,
                    e1 == e0 + mb,
                    e0 >= 0,
                    k <= 0x10_0000,
            ;
            assert forall|i: int| 0 <= i < ceilings.len() implies (
            #[trigger] ceilings[i]).is_finite() by {
                if i < init.len() {
                    assert(ceilings[i] == init[i]);
                }
            }
        }
    }
}

/// Only a zero widens to a zero.
proof fn lemma_widened_zero(x: Binary32)
    requires
        !x.is_nan_spec(),
    ensures
        x.number().code == 0 <==> x.widened().number().code == 0,
{
    lemma_widened(x);
    lemma_magnitude_zero(single(), x.number().code as nat);
    lemma_magnitude_zero(double(), x.widened().number().code as nat);
    lemma_pow2_pos(925);
    if x.is_finite() {
        assert(mag(x) * pow2(925) == 0 <==> mag(x) == 0) by (nonlinear_arith)
            requires
                pow2(925) > 0,
        ;
    }
}

/// Every index below `n`, each once.
pub open spec fn is_order(order: Seq<usize>, n: nat) -> bool {
    &&& order.len() == n
    &&& order.no_duplicates()
    &&& forall|j: int| 0 <= j < n ==> 0 <= #[trigger] order[j] < n
    &&& forall|i: usize| 0 <= i < n ==> #[trigger] order.contains(i)
}

/// The values that some indices select, in their order.
pub open spec fn picked(values: Seq<Binary32>, indices: Seq<usize>) -> Seq<Binary32> {
    Seq::new(indices.len(), |j: int| values[indices[j] as int])
}

proof fn lemma_exact_split(scores: Seq<Binary32>, split: int)
    requires
        0 <= split <= scores.len(),
    ensures
        exact(scores) == exact(scores.take(split)) + exact(scores.skip(split)),
    decreases scores.len(),
{
    if split == scores.len() {
        assert(scores.take(split) == scores);
    } else {
        let init = scores.drop_last();
        lemma_exact_split(init, split);
        assert(scores.take(split) == init.take(split));
        assert(scores.skip(split).drop_last() == init.skip(split));
    }
}

/// The exact sum does not depend on the order.
proof fn lemma_exact_picked(scores: Seq<Binary32>, order: Seq<usize>)
    requires
        is_order(order, scores.len()),
        scores.len() <= usize::MAX,
    ensures
        exact(picked(scores, order)) == exact(scores),
    decreases scores.len(),
{
    let n = scores.len();
    if n > 0 {
        let last = (n - 1) as usize;
        assert(order.contains(last));
        let p = choose|p: int| 0 <= p < n && order[p] == last;
        let rest = order.remove(p);
        let init = scores.drop_last();
        let all = picked(scores, order);
        assert forall|i: usize| 0 <= i < n - 1 implies #[trigger] rest.contains(i) by {
            assert(order.contains(i));
            let q = choose|q: int| 0 <= q < n && order[q] == i;
            if q < p {
                assert(rest[q] == i);
            } else {
                assert(rest[q - 1] == i);
            }
        }
        assert forall|j: int| 0 <= j < n - 1 implies 0 <= #[trigger] rest[j] < n - 1 by {
            if j < p {
                assert(rest[j] == order[j]);
            } else {
                assert(rest[j] == order[j + 1]);
            }
        }
        assert(rest.no_duplicates());
        lemma_exact_picked(init, rest);
        let fewer = picked(init, rest);
        assert(fewer.take(p) == all.take(p));
        assert(fewer.skip(p) == all.skip(p + 1));
        lemma_exact_split(fewer, p);
        lemma_exact_split(all, p + 1);
        assert(all.take(p + 1).drop_last() == all.take(p));
        assert(all.take(p + 1).last() == scores.last());
    } else {
        assert(picked(scores, order).len() == 0);
    }
}

/// Larger numbers have a larger exact sum.
proof fn lemma_exact_dominated(scores: Seq<Binary32>, ceilings: Seq<Binary32>)
    requires
        scores.len() == ceilings.len(),
        nonnegative(scores),
        dominated(scores, ceilings),
        all_finite(ceilings),
    ensures
        exact(scores) <= exact(ceilings),
        all_finite(scores),
    decreases scores.len(),
{
    assert forall|i: int| 0 <= i < scores.len() implies (#[trigger] scores[i]).is_finite() by {
        assert(ceilings[i].is_finite());
    }
    if scores.len() > 0 {
        let (s0, c0) = (scores.drop_last(), ceilings.drop_last());
        assert forall|i: int| 0 <= i < s0.len() implies (#[trigger] s0[i]).at_most(c0[i]) by {
            assert(s0[i] == scores[i]);
        }
        lemma_exact_dominated(s0, c0);
        let (a, b) = (scores.last(), ceilings.last());
        assert(scores[scores.len() - 1].at_most(ceilings[scores.len() - 1]));
        if a.number().code < b.number().code {
            lemma_units_strict(23, a.number().code as nat, b.number().code as nat);
        }
    }
}

/// No score exceeds its ceiling.
pub open spec fn dominated(scores: Seq<Binary32>, ceilings: Seq<Binary32>) -> bool {
    forall|i: int| 0 <= i < scores.len() ==> (#[trigger] scores[i]).at_most(ceilings[i])
}

/// The widening factor in units.
proof fn lemma_sum_factor(n: nat)
    requires
        n <= MAX_WIDENED_TERMS,
    ensures
        !sum_factor(n).number().negative,
        0 < sum_factor(n).number().code < 0x7ff0_0000_0000_0000,
        wide_mag(sum_factor(n)) == (0x40_0000 + n) * pow2(1052),
        pow2(1074) == 0x40_0000 * pow2(1052),
{
    vstd::arithmetic::power2::lemma2_to64();
    vstd::arithmetic::power2::lemma2_to64_rest();
    let code = sum_factor(n).number().code as nat;
    assert(n * 0x4000_0000 < 0x10_0000_0000_0000);
    assert(code == 0x3ff0_0000_0000_0000 + n * 0x4000_0000);
    assert(code == 1023 * 0x10_0000_0000_0000 + n * 0x4000_0000);
    lemma_pow2_adds(30, 1022);
    lemma_pow2_adds(22, 1052);
    assert((0x10_0000_0000_0000 + n * 0x4000_0000) * pow2(1022) == (0x40_0000 + n) * (0x4000_0000
        * pow2(1022))) by (nonlinear_arith);
}

/// The arithmetic behind the widening factor: what rounding can take from the
/// bound and add to the sum, in parts of the exact sum.
#[verifier::rlimit(60)]
proof fn lemma_widening(
    n: nat,
    s: nat,
    se: nat,
    up: nat,
    t: nat,
    e: nat,
    w: nat,
    r: nat,
    y: nat,
    z: nat,
    theta: nat,
)
    requires
        1 <= n <= MAX_WIDENED_TERMS,
        w > 0,
        s <= se + up,
        t * 0x100_0000 <= s * (0x100_0000 + 2 * n),
        se * (0x100_0000 - n) <= e * 0x100_0000,
        up * w * (0x20_0000_0000_0000 - n) <= r * 0x20_0000_0000_0000,
        (0x20_0000_0000_0000 - 1) * (e * w + r) <= 0x20_0000_0000_0000 * y,
        (0x20_0000_0000_0000 - 1) * (y * (0x40_0000 + n)) <= 0x20_0000_0000_0000 * (z * 0x40_0000),
        z <= theta * w,
    ensures
        t <= theta,
{
    let u: int = 0x100_0000;
    let v: int = 0x20_0000_0000_0000;
    let h: int = 0x40_0000;
    let b = e * w + r;
    // The bound before widening holds the exact sum but for one part in 2^24 per term.
    assert(up * w * (u - n) <= r * u) by (nonlinear_arith)
        requires
            up * w * (v - n) <= r * v,
            v == 0x20_0000_0000_0000,
            u == 0x100_0000,
            1 <= n <= 0x10_0000,
            up >= 0,
            w > 0,
    ;
    assert(s * w * (u - n) <= b * u) by (nonlinear_arith)
        requires
            s <= se + up,
            se * (u - n) <= e * u,
            up * w * (u - n) <= r * u,
            b == e * w + r,
            w > 0,
            u - n > 0,
    ;
    let a1 = (u - n) * (h + n);
    let b1 = (u + 2 * n) * h;
    assert(a1 >= b1 + 1 && a1 <= 0x2_0000_0000_0000) by (nonlinear_arith)
        requires
            a1 == (u - n) * (h + n),
            b1 == (u + 2 * n) * h,
            u == 0x100_0000,
            h == 0x40_0000,
            1 <= n <= 0x10_0000,
    ;
    assert(a1 * ((v - 1) * (v - 1)) >= b1 * (v * v)) by (nonlinear_arith)
        requires
            a1 >= b1 + 1,
            a1 <= 0x2_0000_0000_0000,
            v == 0x20_0000_0000_0000,
    ;
    // Two more roundings on the way to the widened bound.
    assert((v - 1) * ((v - 1) * (b * (h + n))) <= v * (v * (theta * w * h))) by (nonlinear_arith)
        requires
            (v - 1) * b <= v * y,
            (v - 1) * (y * (h + n)) <= v * (z * h),
            z <= theta * w,
            v > 1,
            h > 0,
            n >= 1,
    ;
    assert((s * w) * (a1 * ((v - 1) * (v - 1))) <= u * (v * (v * (theta * w * h))))
        by (nonlinear_arith)
        requires
            s * w * (u - n) <= b * u,
            (v - 1) * ((v - 1) * (b * (h + n))) <= v * (v * (theta * w * h)),
            a1 == (u - n) * (h + n),
            v > 1,
            h > 0,
            n >= 1,
            u > 0,
    ;
    assert((s * w) * (b1 * (v * v)) <= u * (v * (v * (theta * w * h)))) by (nonlinear_arith)
        requires
            (s * w) * (a1 * ((v - 1) * (v - 1))) <= u * (v * (v * (theta * w * h))),
            a1 * ((v - 1) * (v - 1)) >= b1 * (v * v),
            s >= 0,
            w > 0,
    ;
    assert(s * (u + 2 * n) <= u * theta) by (nonlinear_arith)
        requires
            (s * w) * (b1 * (v * v)) <= u * (v * (v * (theta * w * h))),
            b1 == (u + 2 * n) * h,
            w > 0,
            v > 0,
            h > 0,
    ;
    assert(t <= theta) by (nonlinear_arith)
        requires
            t * u <= s * (u + 2 * n),
            s * (u + 2 * n) <= u * theta,
            u == 0x100_0000,
    ;
}

/// Only a number widens to a number.
proof fn lemma_floor_is_a_number(x: Binary32)
    requires
        !x.widened().is_nan_spec(),
    ensures
        !x.is_nan_spec(),
{
    reveal(Binary32::widened);
    lemma_formats();
    vstd::arithmetic::power2::lemma2_to64();
    vstd::arithmetic::power2::lemma2_to64_rest();
}

/// The sum of ceilings that are not negative is a number without a minus sign.
proof fn lemma_ceiling_total_sign(ceilings: Seq<Binary32>)
    requires
        nonnegative(ceilings),
    ensures
        ceiling_total(ceilings).bits <= 0x7ff0_0000_0000_0000,
    decreases ceilings.len(),
{
    if ceilings.len() > 0 {
        let init = ceilings.drop_last();
        assert(ceilings.last() == ceilings[ceilings.len() - 1]);
        assert forall|i: int| 0 <= i < init.len() implies !(#[trigger] init[i]).is_nan_spec()
            && init[i].key() >= 0 by {
            assert(init[i] == ceilings[i]);
        }
        lemma_ceiling_total_sign(init);
        lemma_formats();
        lemma_widened(ceilings.last());
        lemma_widened_zero(ceilings.last());
        reveal(Binary64::plus);
        lemma_sum_nonnegative(
            double(),
            ceiling_total(init).number(),
            ceilings.last().widened().number(),
        );
    }
}

/// A bound on a positive sum is nowhere near the smallest numbers.
proof fn lemma_bound_is_normal(
    n: nat,
    s: nat,
    se: nat,
    up: nat,
    e: nat,
    w: nat,
    r: nat,
    y: nat,
)
    requires
        n <= MAX_WIDENED_TERMS,
        w == pow2(925),
        1 <= s <= se + up,
        se * (0x100_0000 - n) <= e * 0x100_0000,
        up * w * (0x20_0000_0000_0000 - n) <= r * 0x20_0000_0000_0000,
        (0x20_0000_0000_0000 - 1) * (e * w + r) <= 0x20_0000_0000_0000 * y,
    ensures
        y >= 0x10_0000_0000_0000,
{
    vstd::arithmetic::power2::lemma2_to64();
    vstd::arithmetic::power2::lemma2_to64_rest();
    lemma_pow2_strictly_increases(54, 925);
    let b = e * w + r;
    assert(2 * b >= w) by {
        if se >= 1 {
            assert(e >= 1) by (nonlinear_arith)
                requires
                    se * (0x100_0000 - n) <= e * 0x100_0000,
                    se >= 1,
                    n <= 0x10_0000,
            ;
            assert(e * w >= w) by (nonlinear_arith)
                requires
                    e >= 1,
            ;
        } else {
            assert(2 * r >= w) by (nonlinear_arith)
                requires
                    up * w * (0x20_0000_0000_0000 - n) <= r * 0x20_0000_0000_0000,
                    up >= 1,
                    n <= 0x10_0000,
            ;
        }
    }
    assert(y >= 0x10_0000_0000_0000) by (nonlinear_arith)
        requires
            (0x20_0000_0000_0000 - 1) * b <= 0x20_0000_0000_0000 * y,
            2 * b >= w,
            w >= 0x40_0000_0000_0000,
    ;
}

/// Some numbers with zero in place of the negative ones.
pub open spec fn raised(scores: Seq<Binary32>) -> Seq<Binary32> {
    Seq::new(
        scores.len(),
        |i: int|
            if scores[i].before(Binary32::zero_spec()) {
                Binary32::zero_spec()
            } else {
                scores[i]
            },
    )
}

/// Numbers below zero only lower a total.
proof fn lemma_total_raised(scores: Seq<Binary32>)
    requires
        !total(scores).is_nan_spec(),
    ensures
        nonnegative(raised(scores)),
        total(scores).at_most(total(raised(scores))),
    decreases scores.len(),
{
    if scores.len() > 0 {
        let (init, last) = (scores.drop_last(), scores.last());
        let high = raised(scores);
        lemma_plus_nan(total(init), last);
        lemma_total_raised(init);
        assert(high.drop_last() =~= raised(init));
        assert forall|i: int| 0 <= i < high.len() implies !(#[trigger] high[i]).is_nan_spec()
            && high[i].key() >= 0 by {
            if i < init.len() {
                assert(high[i] == raised(init)[i]);
            }
        }
        lemma_total_is_score(high);
        lemma_plus_monotone(total(init), last, total(raised(init)), high.last());
    } else {
        assert(raised(scores) =~= scores);
    }
}

/// A sum of numbers that are dominated by ceilings does not exceed a floor that
/// the bound on it cannot beat: where those outside a prefix of `order`, added in
/// that order, and the ceilings of the prefix cannot compete, neither can the
/// total, whatever order it is added in. The negative ones count as zero in the
/// bound: numbers of both signs can round further apart than a sum is widened.
pub proof fn law_cannot_compete_is_sound(
    scores: Seq<Binary32>,
    ceilings: Seq<Binary32>,
    order: Seq<usize>,
    split: int,
    floor: Binary32,
)
    requires
        scores.len() == ceilings.len(),
        scores.len() <= usize::MAX,
        is_order(order, scores.len()),
        0 <= split <= scores.len(),
        !total(scores).is_nan_spec(),
        nonnegative(ceilings),
        dominated(scores, ceilings),
        cannot_compete(
            total(raised(picked(scores, order.skip(split)))),
            ceiling_total(picked(ceilings, order.take(split))),
            floor,
            sum_factor(scores.len()),
        ),
    ensures
        total(scores).at_most(floor),
{
    let high = raised(scores);
    lemma_total_raised(scores);
    let ess = order.skip(split);
    assert forall|j: int| 0 <= j < ess.len() implies 0 <= #[trigger] ess[j] < scores.len() by {
        assert(ess[j] == order[split + j]);
    }
    assert(picked(high, ess) =~= raised(picked(scores, ess)));
    assert forall|i: int| 0 <= i < high.len() implies (#[trigger] high[i]).at_most(
        ceilings[i],
    ) by {
        assert(scores[i].at_most(ceilings[i]));
        assert(ceilings[i].key() >= 0);
    }
    lemma_scores_cannot_compete(high, ceilings, order, split, floor);
}

/// The same of numbers none of which is negative.
#[verifier::rlimit(60)]
proof fn lemma_scores_cannot_compete(
    scores: Seq<Binary32>,
    ceilings: Seq<Binary32>,
    order: Seq<usize>,
    split: int,
    floor: Binary32,
)
    requires
        scores.len() == ceilings.len(),
        scores.len() <= usize::MAX,
        is_order(order, scores.len()),
        0 <= split <= scores.len(),
        nonnegative(scores),
        dominated(scores, ceilings),
        cannot_compete(
            total(picked(scores, order.skip(split))),
            ceiling_total(picked(ceilings, order.take(split))),
            floor,
            sum_factor(scores.len()),
        ),
    ensures
        total(scores).at_most(floor),
{
    let n = scores.len();
    let se = picked(scores, order.skip(split));
    let sp = picked(scores, order.take(split));
    let cp = picked(ceilings, order.take(split));
    let (ess, rest, factor) = (total(se), ceiling_total(cp), sum_factor(n));
    let t = total(scores);
    let x = ess.widened();
    let y = x.plus(rest);
    let z = y.times(factor);
    lemma_formats();
    lemma_total_is_score(scores);
    assert forall|j: int| 0 <= j < se.len() implies !(#[trigger] se[j]).is_nan_spec()
        && se[j].key() >= 0 by {
        assert(se[j] == scores[order[split + j] as int]);
    }
    assert forall|j: int| 0 <= j < cp.len() implies !(#[trigger] cp[j]).is_nan_spec()
        && cp[j].key() >= 0 && !sp[j].is_nan_spec() && sp[j].key() >= 0 && sp[j].at_most(cp[j]) by {
        let i = order[j] as int;
        assert(sp[j] == scores[i] && cp[j] == ceilings[i]);
        assert(scores[i].at_most(ceilings[i]));
    }
    lemma_total_is_score(se);
    lemma_widened(ess);
    lemma_floor_is_a_number(floor);
    lemma_widened(floor);
    lemma_ceiling_total_sign(cp);
    reveal(Binary64::plus);
    lemma_sum_nonnegative(double(), x.number(), rest.number());
    assert(y.number() == crate::float::sum(double(), x.number(), rest.number()));
    if n <= MAX_WIDENED_TERMS {
        lemma_sum_factor(n);
    }
    assert(z.number() == crate::float::product(double(), y.number(), factor.number())) by {
        reveal(Binary64::times);
        vstd::arithmetic::power2::lemma2_to64();
        vstd::arithmetic::power2::lemma2_to64_rest();
    }
    // The bound has no minus sign, so only an infinite floor is level with an infinite bound.
    assert(!z.number().negative);
    assert(z.number().code == 0x7ff0_0000_0000_0000 ==> !floor.is_finite());
    assert(!floor.is_finite() ==> t.at_most(floor));
    if n <= MAX_WIDENED_TERMS {
        lemma_ceiling_total_error(cp);
        lemma_total_error(se);
        lemma_total_error(scores);
        if z.number().code < 0x7ff0_0000_0000_0000 && floor.is_finite() {
            assert(y.number().code < 0x7ff0_0000_0000_0000);
            assert(ess.is_finite() && rest.number().code < 0x7ff0_0000_0000_0000);
            lemma_exact_dominated(sp, cp);
            assert(picked(scores, order).take(split) == sp);
            assert(picked(scores, order).skip(split) == se);
            lemma_exact_picked(scores, order);
            lemma_exact_split(picked(scores, order), split);
            assert forall|i: int| 0 <= i < n implies (#[trigger] scores[i]).is_finite() by {
                assert(order.contains(i as usize));
                let j = choose|j: int| 0 <= j < n && order[j] == i as usize;
                if j < split {
                    assert(sp[j] == scores[i]);
                } else {
                    assert(se[j - split] == scores[i]);
                }
            }
            assert(all_finite(scores));
            let u = 0x100_0000 - n;
            assert(exact(se) * u <= mag(ess) * 0x100_0000) by (nonlinear_arith)
                requires
                    exact(se) * (0x100_0000 - se.len()) <= mag(ess) * 0x100_0000,
                    u <= 0x100_0000 - se.len(),
            ;
            let up = exact(cp) * pow2(925);
            assert(up >= 0) by (nonlinear_arith)
                requires
                    up == exact(cp) * pow2(925),
            ;
            assert(up * (0x20_0000_0000_0000 - n) <= wide_mag(rest) * 0x20_0000_0000_0000)
                by (nonlinear_arith)
                requires
                    up * (0x20_0000_0000_0000 - cp.len()) <= wide_mag(rest) * 0x20_0000_0000_0000,
                    n >= cp.len(),
                    up >= 0,
            ;
            lemma_finite_bound(n, exact(scores), exact(se), exact(cp), t, ess, rest, floor);
        }
    } else {
        // The factor is infinite, so the bound is infinite or not a number.
        assert(factor.number().code == 0x7ff0_0000_0000_0000);
        assert(factor.number().is_infinite(double()));
        assert(z.number().code >= 0x7ff0_0000_0000_0000) by {
            vstd::arithmetic::power2::lemma2_to64();
            vstd::arithmetic::power2::lemma2_to64_rest();
        }
    }
}

/// The same on the magnitudes, where nothing overflows.
#[verifier::rlimit(60)]
proof fn lemma_finite_bound(
    n: nat,
    s: nat,
    se: nat,
    up: nat,
    t: Binary32,
    ess: Binary32,
    rest: Binary64,
    floor: Binary32,
)
    requires
        n <= MAX_WIDENED_TERMS,
        s <= se + up,
        n == 0 ==> s == 0,
        mag(t) * 0x100_0000 <= s * (0x100_0000 + 2 * n),
        se * (0x100_0000 - n) <= mag(ess) * 0x100_0000,
        up * pow2(925) * (0x20_0000_0000_0000 - n) <= wide_mag(rest) * 0x20_0000_0000_0000,
        t.is_score(),
        ess.is_score(),
        ess.is_finite(),
        rest.bits < 0x7ff0_0000_0000_0000,
        floor.is_finite(),
        ess.widened().plus(rest).bits < 0x7ff0_0000_0000_0000,
        ess.widened().plus(rest).times(sum_factor(n)).bits < 0x7ff0_0000_0000_0000,
        cannot_compete(ess, rest, floor, sum_factor(n)),
    ensures
        t.at_most(floor),
{
    let factor = sum_factor(n);
    let x = ess.widened();
    let y = x.plus(rest);
    let z = y.times(factor);
    let w = pow2(925);
    let (yy, zz, ff, rr, ee) = (wide_mag(y), wide_mag(z), wide_mag(factor), wide_mag(rest), mag(ess));
    lemma_formats();
    lemma_pow2_pos(925);
    vstd::arithmetic::power2::lemma2_to64();
    vstd::arithmetic::power2::lemma2_to64_rest();
    lemma_widened(ess);
    lemma_widened(floor);
    lemma_widened_zero(floor);
    lemma_magnitude_zero(single(), t.number().code as nat);
    assert(y.number().code == double().nearest(ee * w + rr, 1)) by {
        reveal(Binary64::plus);
        lemma_sum_nonnegative(double(), x.number(), rest.number());
    }
    lemma_sum_error(double(), ee * w + rr);
    if s == 0 {
        assert(mag(t) == 0) by (nonlinear_arith)
            requires
                mag(t) * 0x100_0000 <= s * (0x100_0000 + 2 * n),
                s == 0,
        ;
    } else {
        lemma_bound_is_normal(n, s, se, up, ee, w, rr, yy);
        lemma_sum_factor(n);
        lemma_pow2_pos(1052);
        let p = pow2(1052);
        assert(yy * ff >= pow2(1074) * pow2(52)) by (nonlinear_arith)
            requires
                yy >= 0x10_0000_0000_0000,
                ff == (0x40_0000 + n) * p,
                pow2(1074) == 0x40_0000 * p,
                pow2(52) == 0x10_0000_0000_0000,
                p > 0,
        ;
        lemma_pow2_pos(1074);
        assert(z.number().code == round_code(52, yy * ff, pow2(1074))) by {
            reveal(Binary64::times);
        }
        lemma_round_error(52, yy * ff, pow2(1074));
        assert((0x20_0000_0000_0000 - 1) * (yy * (0x40_0000 + n)) <= 0x20_0000_0000_0000 * (zz
            * 0x40_0000)) by (nonlinear_arith)
            requires
                (0x20_0000_0000_0000 - 1) * (yy * ff) <= 0x20_0000_0000_0000 * (zz * pow2(1074)),
                ff == (0x40_0000 + n) * p,
                pow2(1074) == 0x40_0000 * p,
                p > 0,
        ;
        let zc = z.number().code as nat;
        let fc = floor.widened().number().code as nat;
        lemma_magnitude_zero(double(), zc);
        lemma_magnitude_zero(single(), floor.number().code as nat);
        if zc < fc {
            lemma_units_strict(52, zc, fc);
        }
        assert(0 * w == 0);
        assert(zz <= mag(floor) * w);
        lemma_widening(n, s, se, up, mag(t), ee, w, rr, yy, zz, mag(floor));
        let (tc, gc) = (t.number().code as nat, floor.number().code as nat);
        if tc > gc {
            lemma_units_strict(23, gc, tc);
        }
        if floor.number().negative {
            assert(mag(floor) == 0);
        }
    }
}

/// The widening factor is one plus one part in `2^22` for each term, up to `2^20`
/// terms, and infinite from there on.
pub proof fn law_factor_value(n: nat)
    ensures
        n <= 0x10_0000 ==> sum_factor(n).bits == 0x3ff0_0000_0000_0000 + n * 0x4000_0000,
        n > 0x10_0000 ==> sum_factor(n).bits == 0x7ff0_0000_0000_0000,
{
}

/// A bound is compared as it is: the sum of both parts with 53 bits, widened.
pub proof fn law_bound_test(partial: Binary32, rest: Binary64, floor: Binary32, factor: Binary64)
    ensures
        cannot_compete(partial, rest, floor, factor) <==> partial.widened().plus(rest).times(
            factor,
        ).at_most(floor.widened()),
{
}

/// Widening a finite number changes neither its sign nor its value.
pub proof fn law_widening_is_exact(x: Binary32)
    requires
        x.is_finite(),
    ensures
        x.widened().number().negative == x.number().negative,
        units(52, x.widened().number().code as nat) == units(23, x.number().code as nat) * pow2(925),
{
    lemma_widened(x);
}

} // verus!
