//! The two interchange formats that scores are computed in, by bit pattern.
use crate::float::add_numbers;
use crate::float::convert_number;
use crate::float::converted;
use crate::float::count_to_number;
use crate::float::div_numbers;
use crate::float::lemma_magnitude_zero;
use crate::float::lemma_nearest_zero;
use crate::float::less_than;
use crate::float::mul_numbers;
use crate::float::product;
use crate::float::quotient;
use crate::float::sum;
use crate::float::Format;
use crate::float::Number;
use crate::rounding::lemma_round_code_exact;
use crate::rounding::lemma_round_code_monotone;
use crate::rounding::lemma_units_strict;
use crate::rounding::round_code;
use crate::rounding::units;
use vstd::arithmetic::power2::lemma_pow2_adds;
use vstd::arithmetic::power2::lemma_pow2_pos;
use vstd::arithmetic::power2::pow2;
use vstd::prelude::*;

verus! {

/// The format with 24 significant bits.
pub open spec fn single() -> Format {
    Format { m: 23, top: 255, scale: 149 }
}

/// The format with 53 significant bits.
pub open spec fn double() -> Format {
    Format { m: 52, top: 2047, scale: 1074 }
}

fn single_format() -> (f: Format)
    ensures
        f == single(),
        f.supported(),
{
    Format { m: 23, top: 255, scale: 149 }
}

fn double_format() -> (f: Format)
    ensures
        f == double(),
        f.supported(),
{
    Format { m: 52, top: 2047, scale: 1074 }
}

/// A number with 24 significant bits: a term weight, a frequency, a score.
#[derive(Clone, Copy, Debug, PartialEq, Eq, Structural, Hash)]
pub struct Binary32 {
    pub bits: u32,
}

/// A number with 53 significant bits: a bound on a sum of scores.
#[derive(Clone, Copy, Debug, PartialEq, Eq, Structural, Hash)]
pub struct Binary64 {
    pub bits: u64,
}

impl Binary32 {
    /// Sign and magnitude.
    pub open spec fn number(self) -> Number {
        Number { negative: self.bits >= 0x8000_0000, code: (self.bits % 0x8000_0000) as u64 }
    }

    /// The bit pattern of a sign and a magnitude.
    pub open spec fn of_number(n: Number) -> Binary32 {
        Binary32 { bits: (n.code + (if n.negative { 0x8000_0000int } else { 0int })) as u32 }
    }

    /// Positive zero.
    pub open spec fn zero_spec() -> Binary32 {
        Binary32 { bits: 0 }
    }

    /// Whether this is not a number.
    pub open spec fn is_nan_spec(self) -> bool {
        self.number().code > 0x7f80_0000
    }

    /// Whether this is a number, and not an infinite one.
    pub open spec fn is_finite(self) -> bool {
        self.number().code < 0x7f80_0000
    }

    /// The place in the order of the numbers; both zeros share theirs.
    pub open spec fn key(self) -> int {
        self.number().key()
    }

    /// Whether this number lies before the other; never so where either is not a number.
    pub open spec fn before(self, other: Binary32) -> bool {
        !self.is_nan_spec() && !other.is_nan_spec() && self.key() < other.key()
    }

    /// Whether this number lies before the other or level with it.
    pub open spec fn at_most(self, other: Binary32) -> bool {
        !self.is_nan_spec() && !other.is_nan_spec() && self.key() <= other.key()
    }

    /// Whether this can be an accumulated score: a number, and without a minus sign.
    pub open spec fn is_score(self) -> bool {
        self.bits <= 0x7f80_0000
    }

    /// Whether this can be a sum that starts from zero: anything but negative
    /// zero, and one bit pattern for what is not a number.
    pub open spec fn is_sum(self) -> bool {
        self.bits != 0x8000_0000 && (self.is_nan_spec() ==> self.bits == 0x7fc0_0000)
    }

    /// The rounded sum.
    #[verifier::opaque]
    pub open spec fn plus(self, other: Binary32) -> Binary32 {
        Binary32::of_number(sum(single(), self.number(), other.number()))
    }

    /// The rounded product.
    #[verifier::opaque]
    pub open spec fn times(self, other: Binary32) -> Binary32 {
        Binary32::of_number(product(single(), self.number(), other.number()))
    }

    /// The rounded quotient.
    #[verifier::opaque]
    pub open spec fn over(self, other: Binary32) -> Binary32 {
        Binary32::of_number(quotient(single(), self.number(), other.number()))
    }

    /// The number nearest to a count.
    #[verifier::opaque]
    pub open spec fn of_count(count: u32) -> Binary32 {
        Binary32::of_number(
            Number {
                negative: false,
                code: single().nearest(count as nat * pow2(149), 1) as u64,
            },
        )
    }

    /// The same number with 53 significant bits.
    #[verifier::opaque]
    pub open spec fn widened(self) -> Binary64 {
        Binary64::of_number(converted(single(), double(), self.number()))
    }

    fn unpack(self) -> (n: Number)
        ensures
            n == self.number(),
            n.fits(single()),
    {
        proof {
            lemma_formats();
        }
        Number { negative: self.bits >= 0x8000_0000, code: (self.bits % 0x8000_0000) as u64 }
    }

    fn pack(n: Number) -> (r: Binary32)
        requires
            n.fits(single()),
        ensures
            r == Binary32::of_number(n),
            r.number() == n,
    {
        proof {
            lemma_formats();
        }
        let sign: u32 = if n.negative {
            0x8000_0000
        } else {
            0
        };
        Binary32 { bits: n.code as u32 + sign }
    }

    /// Positive zero.
    pub fn zero() -> (r: Binary32)
        ensures
            r == Binary32::zero_spec(),
    {
        Binary32 { bits: 0 }
    }

    /// The number with this bit pattern.
    pub fn from_bits(bits: u32) -> (r: Binary32)
        ensures
            r.bits == bits,
    {
        Binary32 { bits }
    }

    /// The bit pattern of this number.
    pub fn to_bits(self) -> (bits: u32)
        ensures
            bits == self.bits,
    {
        self.bits
    }

    /// Whether this is not a number.
    pub fn is_nan(self) -> (yes: bool)
        ensures
            yes == self.is_nan_spec(),
    {
        self.bits % 0x8000_0000 > 0x7f80_0000
    }

    /// The number nearest to a count.
    pub fn from_count(count: u32) -> (r: Binary32)
        ensures
            r == Binary32::of_count(count),
    {
        proof {
            reveal(Binary32::of_count);
        }
        Binary32::pack(count_to_number(single_format(), count as u64))
    }

    /// Adds.
    pub fn add(self, other: Binary32) -> (r: Binary32)
        ensures
            r == self.plus(other),
    {
        proof {
            reveal(Binary32::plus);
        }
        Binary32::pack(add_numbers(single_format(), self.unpack(), other.unpack()))
    }

    /// Multiplies.
    pub fn mul(self, other: Binary32) -> (r: Binary32)
        ensures
            r == self.times(other),
    {
        proof {
            reveal(Binary32::times);
        }
        Binary32::pack(mul_numbers(single_format(), self.unpack(), other.unpack()))
    }

    /// Divides.
    pub fn div(self, other: Binary32) -> (r: Binary32)
        ensures
            r == self.over(other),
    {
        proof {
            reveal(Binary32::over);
        }
        Binary32::pack(div_numbers(single_format(), self.unpack(), other.unpack()))
    }

    /// Compares with `<`.
    pub fn lt(self, other: Binary32) -> (yes: bool)
        ensures
            yes == self.before(other),
    {
        proof {
            lemma_formats();
        }
        less_than(single_format(), self.unpack(), other.unpack())
    }

    /// Compares with `<=`.
    pub fn le(self, other: Binary32) -> (yes: bool)
        ensures
            yes == self.at_most(other),
    {
        !self.is_nan() && !other.is_nan() && !other.lt(self)
    }

    /// Widens to 53 significant bits.
    pub fn widen(self) -> (r: Binary64)
        ensures
            r == self.widened(),
    {
        proof {
            reveal(Binary32::widened);
        }
        Binary64::pack(convert_number(single_format(), double_format(), self.unpack()))
    }
}

impl Binary64 {
    /// Sign and magnitude.
    pub open spec fn number(self) -> Number {
        Number {
            negative: self.bits >= 0x8000_0000_0000_0000,
            code: (self.bits % 0x8000_0000_0000_0000) as u64,
        }
    }

    /// The bit pattern of a sign and a magnitude.
    pub open spec fn of_number(n: Number) -> Binary64 {
        Binary64 {
            bits: (n.code + (if n.negative { 0x8000_0000_0000_0000int } else { 0int })) as u64,
        }
    }

    /// Positive zero.
    pub open spec fn zero_spec() -> Binary64 {
        Binary64 { bits: 0 }
    }

    /// Whether this is not a number.
    pub open spec fn is_nan_spec(self) -> bool {
        self.number().code > 0x7ff0_0000_0000_0000
    }

    /// Whether this number lies before the other or level with it; never so
    /// where either is not a number.
    pub open spec fn at_most(self, other: Binary64) -> bool {
        !self.is_nan_spec() && !other.is_nan_spec() && self.number().key() <= other.number().key()
    }

    /// The rounded sum.
    #[verifier::opaque]
    pub open spec fn plus(self, other: Binary64) -> Binary64 {
        Binary64::of_number(sum(double(), self.number(), other.number()))
    }

    /// The rounded product.
    #[verifier::opaque]
    pub open spec fn times(self, other: Binary64) -> Binary64 {
        Binary64::of_number(product(double(), self.number(), other.number()))
    }

    fn unpack(self) -> (n: Number)
        ensures
            n == self.number(),
            n.fits(double()),
    {
        proof {
            lemma_formats();
        }
        Number {
            negative: self.bits >= 0x8000_0000_0000_0000,
            code: self.bits % 0x8000_0000_0000_0000,
        }
    }

    fn pack(n: Number) -> (r: Binary64)
        requires
            n.fits(double()),
        ensures
            r == Binary64::of_number(n),
            r.number() == n,
    {
        proof {
            lemma_formats();
        }
        let sign: u64 = if n.negative {
            0x8000_0000_0000_0000
        } else {
            0
        };
        Binary64 { bits: n.code + sign }
    }

    /// Positive zero.
    pub fn zero() -> (r: Binary64)
        ensures
            r == Binary64::zero_spec(),
    {
        Binary64 { bits: 0 }
    }

    /// The number with this bit pattern.
    pub fn from_bits(bits: u64) -> (r: Binary64)
        ensures
            r.bits == bits,
    {
        Binary64 { bits }
    }

    /// The bit pattern of this number.
    pub fn to_bits(self) -> (bits: u64)
        ensures
            bits == self.bits,
    {
        self.bits
    }

    /// Adds.
    pub fn add(self, other: Binary64) -> (r: Binary64)
        ensures
            r == self.plus(other),
    {
        proof {
            reveal(Binary64::plus);
        }
        Binary64::pack(add_numbers(double_format(), self.unpack(), other.unpack()))
    }

    /// Multiplies.
    pub fn mul(self, other: Binary64) -> (r: Binary64)
        ensures
            r == self.times(other),
    {
        proof {
            reveal(Binary64::times);
        }
        Binary64::pack(mul_numbers(double_format(), self.unpack(), other.unpack()))
    }

    /// Compares with `<=`.
    pub fn le(self, other: Binary64) -> (yes: bool)
        ensures
            yes == self.at_most(other),
    {
        proof {
            lemma_formats();
        }
        let a = self.unpack();
        let b = other.unpack();
        a.code <= 0x7ff0_0000_0000_0000 && b.code <= 0x7ff0_0000_0000_0000 && !less_than(
            double_format(),
            b,
            a,
        )
    }
}

/// The codes of infinity, and how far codes go.
pub proof fn lemma_formats()
    ensures
        single().infinity() == 0x7f80_0000,
        double().infinity() == 0x7ff0_0000_0000_0000,
        (single().top + 1) * pow2(23) == 0x8000_0000,
        (double().top + 1) * pow2(52) == 0x8000_0000_0000_0000,
{
    vstd::arithmetic::power2::lemma2_to64();
    vstd::arithmetic::power2::lemma2_to64_rest();
}

/// Adding to zero changes nothing but a negative zero.
pub proof fn lemma_zero_plus(b: Binary32)
    requires
        !b.is_nan_spec(),
    ensures
        b.bits == 0x8000_0000 ==> Binary32::zero_spec().plus(b).bits == 0,
        b.bits != 0x8000_0000 ==> Binary32::zero_spec().plus(b) == b,
{
    reveal(Binary32::plus);
    lemma_formats();
    let y = b.number();
    lemma_magnitude_zero(single(), y.code as nat);
    lemma_magnitude_zero(single(), 0);
    lemma_round_code_exact(23, y.code as nat, 1);
    assert(units(23, y.code as nat) * 1 == units(23, y.code as nat));
}

/// Sums that start from zero stay such sums.
pub proof fn lemma_plus_is_sum(a: Binary32, b: Binary32)
    requires
        a.is_sum(),
    ensures
        a.plus(b).is_sum(),
{
    reveal(Binary32::plus);
    lemma_formats();
    vstd::arithmetic::power2::lemma2_to64();
    let (x, y) = (a.number(), b.number());
    let v = x.value(single()) + y.value(single());
    lemma_magnitude_zero(single(), x.code as nat);
    lemma_magnitude_zero(single(), y.code as nat);
    if v != 0 {
        lemma_pow2_pos(23);
        assert(round_code(23, vstd::math::abs(v), 1) > 0);
    }
}

/// Adding either zero to a sum changes nothing.
pub proof fn lemma_plus_zero(a: Binary32, b: Binary32)
    requires
        a.is_sum(),
        b.number().code == 0,
    ensures
        a.plus(b) == a,
{
    reveal(Binary32::plus);
    lemma_formats();
    let (x, y) = (a.number(), b.number());
    lemma_magnitude_zero(single(), x.code as nat);
    lemma_magnitude_zero(single(), 0);
    lemma_round_code_exact(23, x.code as nat, 1);
    assert(units(23, x.code as nat) * 1 == units(23, x.code as nat));
    vstd::arithmetic::power2::lemma2_to64();
}

/// The value of a number keeps the order.
proof fn lemma_value_monotone(a: Binary32, b: Binary32)
    requires
        a.key() <= b.key(),
    ensures
        a.number().value(single()) <= b.number().value(single()),
{
    let (x, y) = (a.number(), b.number());
    lemma_magnitude_zero(single(), 0);
    lemma_magnitude_zero(single(), x.code as nat);
    lemma_magnitude_zero(single(), y.code as nat);
    if x.code < y.code {
        lemma_units_strict(23, x.code as nat, y.code as nat);
    } else if y.code < x.code {
        lemma_units_strict(23, y.code as nat, x.code as nat);
    }
}

/// Adding keeps the order, where both sums are numbers.
pub proof fn lemma_plus_monotone(a: Binary32, b: Binary32, c: Binary32, d: Binary32)
    requires
        a.at_most(c),
        b.at_most(d),
        !a.plus(b).is_nan_spec(),
        !c.plus(d).is_nan_spec(),
    ensures
        a.plus(b).at_most(c.plus(d)),
{
    reveal(Binary32::plus);
    lemma_formats();
    vstd::arithmetic::power2::lemma2_to64();
    if a.is_finite() && b.is_finite() && c.is_finite() && d.is_finite() {
        lemma_value_monotone(a, c);
        lemma_value_monotone(b, d);
        let v = a.number().value(single()) + b.number().value(single());
        let w = c.number().value(single()) + d.number().value(single());
        if vstd::math::abs(v) <= vstd::math::abs(w) {
            lemma_round_code_monotone(23, vstd::math::abs(v), vstd::math::abs(w), 1);
        } else {
            lemma_round_code_monotone(23, vstd::math::abs(w), vstd::math::abs(v), 1);
        }
    }
}

/// What is not a number stays in a sum, and a finite number brings none in.
pub proof fn lemma_plus_nan(a: Binary32, b: Binary32)
    ensures
        a.is_nan_spec() || b.is_nan_spec() ==> a.plus(b).is_nan_spec(),
        !a.is_nan_spec() && b.is_finite() ==> !a.plus(b).is_nan_spec(),
{
    reveal(Binary32::plus);
    lemma_formats();
    vstd::arithmetic::power2::lemma2_to64();
}

/// A score plus a positive number is positive.
pub proof fn lemma_plus_positive(a: Binary32, b: Binary32)
    requires
        a.is_score(),
        Binary32::zero_spec().before(b),
    ensures
        Binary32::zero_spec().before(a.plus(b)),
        a.plus(b).is_score(),
{
    lemma_plus_score(a, b);
    lemma_formats();
    lemma_magnitude_zero(single(), b.number().code as nat);
    if a.is_finite() && b.is_finite() {
        let n = a.number().magnitude(single()) + b.number().magnitude(single());
        lemma_pow2_pos(23);
        assert(round_code(23, n, 1) > 0);
    }
}

/// A score plus a number that is not negative is a score.
pub proof fn lemma_plus_score(a: Binary32, b: Binary32)
    requires
        a.is_score(),
        !b.is_nan_spec(),
        b.key() >= 0,
    ensures
        a.plus(b).is_score(),
        a.is_finite() && b.is_finite() ==> a.plus(b).number().code == single().nearest(
            a.number().magnitude(single()) + b.number().magnitude(single()),
            1,
        ),
        !a.is_finite() || !b.is_finite() ==> a.plus(b).number().code == 0x7f80_0000,
{
    lemma_formats();
    if b.number().code == 0 {
        lemma_plus_zero(a, b);
        lemma_magnitude_zero(single(), 0);
        lemma_round_code_exact(23, a.number().code as nat, 1);
        assert(units(23, a.number().code as nat) * 1 == units(23, a.number().code as nat));
    } else {
        reveal(Binary32::plus);
        lemma_magnitude_zero(single(), b.number().code as nat);
    }
}

/// Multiplying by a finite number that is not negative keeps the order.
pub proof fn lemma_times_monotone(k: Binary32, x: Binary32, y: Binary32)
    requires
        k.is_finite(),
        k.key() >= 0,
        x.is_score(),
        y.is_score(),
        y.is_finite(),
        x.key() <= y.key(),
    ensures
        0 <= k.times(x).key() <= k.times(y).key(),
        !k.times(x).is_nan_spec(),
        !k.times(y).is_nan_spec(),
{
    reveal(Binary32::times);
    lemma_formats();
    let f = single();
    let (mk, mx, my) = (k.number().magnitude(f), x.number().magnitude(f), y.number().magnitude(f));
    if x.number().code < y.number().code {
        lemma_units_strict(23, x.number().code as nat, y.number().code as nat);
    }
    lemma_pow2_pos(149);
    assert(mk * mx <= mk * my) by (nonlinear_arith)
        requires
            mx <= my,
    ;
    lemma_round_code_monotone(23, mk * mx, mk * my, pow2(149));
    if k.number().code == 0 {
        lemma_magnitude_zero(f, 0);
        lemma_nearest_zero(f, pow2(149));
        assert(0 * mx == 0 && 0 * my == 0);
    }
}

/// Multiplying a finite number by a score gives a number. One that is no greater
/// keeps a finite product finite.
pub proof fn lemma_times_finite(k: Binary32, x: Binary32, y: Binary32)
    requires
        k.is_finite(),
        x.is_score(),
        y.is_score(),
        y.is_finite(),
        x.key() <= y.key(),
    ensures
        !k.times(x).is_nan_spec(),
        k.times(y).is_finite() ==> k.times(x).is_finite(),
{
    reveal(Binary32::times);
    lemma_formats();
    let abs = Binary32 { bits: (k.bits % 0x8000_0000) as u32 };
    lemma_times_monotone(abs, x, y);
    assert(abs.number().code == k.number().code);
    assert(k.times(x).number().code == abs.times(x).number().code);
    assert(k.times(y).number().code == abs.times(y).number().code);
}

/// Multiplying a positive number by a positive count gives a positive number.
pub proof fn lemma_times_count_positive(k: Binary32, count: u32)
    requires
        Binary32::zero_spec().before(k),
        count > 0,
    ensures
        Binary32::zero_spec().before(k.times(Binary32::of_count(count))),
{
    reveal(Binary32::times);
    reveal(Binary32::of_count);
    lemma_formats();
    vstd::arithmetic::power2::lemma2_to64();
    vstd::arithmetic::power2::lemma2_to64_rest();
    let f = single();
    let c = Binary32::of_count(count);
    let one = pow2(149);
    lemma_pow2_pos(149);
    // One has the code that `2^149` units round to.
    assert(units(23, 0x3f80_0000) == one) by {
        lemma_pow2_adds(23, 126);
    }
    lemma_round_code_exact(23, 0x3f80_0000, 1);
    assert(units(23, 0x3f80_0000) * 1 == one);
    let n = count as nat * one;
    assert(count as nat * one >= one) by (nonlinear_arith)
        requires
            count >= 1,
    ;
    lemma_round_code_monotone(23, one, n, 1);
    assert(c.number().code >= 0x3f80_0000);
    let (mk, mc) = (k.number().magnitude(f), c.number().magnitude(f));
    if c.number().code > 0x3f80_0000 {
        lemma_units_strict(23, 0x3f80_0000, c.number().code as nat);
    }
    assert(mk * mc >= mk * one) by (nonlinear_arith)
        requires
            mc >= one,
    ;
    lemma_round_code_exact(23, k.number().code as nat, one);
    lemma_round_code_monotone(23, mk * one, mk * mc, one);
}

/// Multiplying a finite number by zero gives a zero.
pub proof fn lemma_times_zero(k: Binary32)
    requires
        k.is_finite(),
    ensures
        k.times(Binary32::zero_spec()).number().code == 0,
{
    reveal(Binary32::times);
    lemma_formats();
    lemma_magnitude_zero(single(), 0);
    lemma_pow2_pos(149);
    lemma_nearest_zero(single(), pow2(149));
    assert(k.number().magnitude(single()) * 0 == 0);
}

} // verus!
