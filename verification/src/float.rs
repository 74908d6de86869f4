//! Sign-magnitude binary floating point on plain integers: addition,
//! multiplication, division and order, each correctly rounded to nearest with
//! ties to even.
use crate::rounding::lemma_round_code_exact;
use crate::rounding::lemma_round_error;
use crate::rounding::lemma_units_strict;
use crate::rounding::power_of_two;
use crate::rounding::round_code;
use crate::rounding::round_significand;
use crate::rounding::units;
use vstd::arithmetic::div_mod::lemma_fundamental_div_mod;
use vstd::arithmetic::power2::lemma_pow2_adds;
use vstd::arithmetic::power2::lemma_pow2_pos;
use vstd::arithmetic::power2::lemma_pow2_strictly_increases;
use vstd::arithmetic::power2::lemma_pow2_unfold;
use vstd::arithmetic::power2::pow2;
use vstd::prelude::*;

verus! {

/// A binary interchange format: `m` stored significand bits, exponent fields
/// up to `top`, and a smallest positive value of `2^-scale`.
#[derive(Clone, Copy)]
pub struct Format {
    pub m: u32,
    pub top: u32,
    pub scale: u32,
}

impl Format {
    /// The formats that the operations below are written for.
    pub open spec fn supported(self) -> bool {
        2 <= self.m <= 52 && 1 <= self.top <= 2047 && self.scale <= 2000
    }

    /// The code of infinity.
    pub open spec fn infinity(self) -> nat {
        (self.top * pow2(self.m as nat)) as nat
    }

    /// The code of the nearest value to `n / d` units, infinity if it lies
    /// beyond the largest finite one.
    pub open spec fn nearest(self, n: nat, d: nat) -> nat {
        let code = round_code(self.m as nat, n, d);
        if code < self.infinity() {
            code
        } else {
            self.infinity()
        }
    }

    /// Not a number, the quiet one with an otherwise empty payload.
    pub open spec fn quiet_nan(self) -> Number {
        Number {
            negative: false,
            code: (self.infinity() + pow2((self.m - 1) as nat)) as u64,
        }
    }
}

/// A number of a format: a sign, and the code of the magnitude. Codes above
/// that of infinity are not numbers.
#[derive(Clone, Copy)]
pub struct Number {
    pub negative: bool,
    pub code: u64,
}

impl Number {
    /// Not a number.
    pub open spec fn is_nan(self, f: Format) -> bool {
        self.code > f.infinity()
    }

    /// One of the two infinities.
    pub open spec fn is_infinite(self, f: Format) -> bool {
        self.code == f.infinity()
    }

    /// Whether the code has room for no more than this format.
    pub open spec fn fits(self, f: Format) -> bool {
        self.code < (f.top + 1) * pow2(f.m as nat)
    }

    /// The magnitude in units.
    pub open spec fn magnitude(self, f: Format) -> nat {
        units(f.m as nat, self.code as nat)
    }

    /// The value in units, with its sign.
    pub open spec fn value(self, f: Format) -> int {
        if self.negative {
            -(self.magnitude(f) as int)
        } else {
            self.magnitude(f) as int
        }
    }

    /// The place in the order of the numbers; both zeros share theirs.
    pub open spec fn key(self) -> int {
        if self.negative {
            -(self.code as int)
        } else {
            self.code as int
        }
    }
}

/// The sum of two numbers.
pub open spec fn sum(f: Format, a: Number, b: Number) -> Number {
    if a.is_nan(f) || b.is_nan(f) {
        f.quiet_nan()
    } else if a.is_infinite(f) {
        if b.is_infinite(f) && a.negative != b.negative {
            f.quiet_nan()
        } else {
            a
        }
    } else if b.is_infinite(f) {
        b
    } else {
        let v = a.value(f) + b.value(f);
        if v == 0 {
            Number { negative: a.negative && b.negative, code: 0 }
        } else {
            Number { negative: v < 0, code: f.nearest(vstd::math::abs(v), 1) as u64 }
        }
    }
}

/// The product of two numbers.
pub open spec fn product(f: Format, a: Number, b: Number) -> Number {
    let negative = a.negative != b.negative;
    if a.is_nan(f) || b.is_nan(f) {
        f.quiet_nan()
    } else if a.is_infinite(f) || b.is_infinite(f) {
        if a.code == 0 || b.code == 0 {
            f.quiet_nan()
        } else {
            Number { negative, code: f.infinity() as u64 }
        }
    } else {
        Number {
            negative,
            code: f.nearest(a.magnitude(f) * b.magnitude(f), pow2(f.scale as nat)) as u64,
        }
    }
}

/// The quotient of two numbers.
pub open spec fn quotient(f: Format, a: Number, b: Number) -> Number {
    let negative = a.negative != b.negative;
    if a.is_nan(f) || b.is_nan(f) {
        f.quiet_nan()
    } else if a.is_infinite(f) {
        if b.is_infinite(f) {
            f.quiet_nan()
        } else {
            Number { negative, code: f.infinity() as u64 }
        }
    } else if b.is_infinite(f) {
        Number { negative, code: 0 }
    } else if b.code == 0 {
        if a.code == 0 {
            f.quiet_nan()
        } else {
            Number { negative, code: f.infinity() as u64 }
        }
    } else {
        Number {
            negative,
            code: f.nearest(a.magnitude(f) * pow2(f.scale as nat), b.magnitude(f)) as u64,
        }
    }
}

/// Whether `a` lies before `b`; never so where either is not a number.
pub open spec fn less(f: Format, a: Number, b: Number) -> bool {
    !a.is_nan(f) && !b.is_nan(f) && a.key() < b.key()
}

/// `a` as a number of the format `to`.
pub open spec fn converted(from: Format, to: Format, a: Number) -> Number {
    if a.is_nan(from) {
        to.quiet_nan()
    } else if a.is_infinite(from) {
        Number { negative: a.negative, code: to.infinity() as u64 }
    } else {
        Number {
            negative: a.negative,
            code: to.nearest(a.magnitude(from) * pow2((to.scale - from.scale) as nat), 1) as u64,
        }
    }
}

proof fn lemma_format(f: Format)
    requires
        f.supported(),
    ensures
        0 < pow2(f.m as nat) <= 0x10_0000_0000_0000,
        pow2(f.m as nat) == 2 * pow2((f.m - 1) as nat),
        f.infinity() >= pow2(f.m as nat),
        f.infinity() + pow2(f.m as nat) <= 0x8000_0000_0000_0000,
        (f.top + 1) * pow2(f.m as nat) == f.infinity() + pow2(f.m as nat),
{
    vstd::arithmetic::power2::lemma2_to64();
    vstd::arithmetic::power2::lemma2_to64_rest();
    let p = pow2(f.m as nat);
    lemma_pow2_pos(f.m as nat);
    lemma_pow2_unfold(f.m as nat);
    if f.m < 52 {
        lemma_pow2_strictly_increases(f.m as nat, 52);
    }
    assert(f.top * p + p <= 2048 * 0x10_0000_0000_0000 && f.top * p >= p && (f.top + 1) * p
        == f.top * p + p) by (nonlinear_arith)
        requires
            1 <= f.top <= 2047,
            p <= 0x10_0000_0000_0000,
    ;
}

/// The exponent of the magnitude with this code.
spec fn exponent(f: Format, code: nat) -> nat {
    if code < pow2(f.m as nat) {
        0
    } else {
        (code / pow2(f.m as nat) - 1) as nat
    }
}

/// A significand and an exponent that make up the magnitude.
fn decode(f: Format, code: u64) -> (parts: (u64, u32))
    requires
        f.supported(),
        code < f.infinity(),
    ensures
        units(f.m as nat, code as nat) == parts.0 * pow2(parts.1 as nat),
        parts.0 < 2 * pow2(f.m as nat),
        parts.1 > 0 ==> parts.0 >= pow2(f.m as nat),
        parts.1 < 2047,
        parts.1 == exponent(f, code as nat),
        code > 0 ==> parts.0 > 0,
{
    proof {
        lemma_format(f);
        vstd::arithmetic::power2::lemma2_to64();
    }
    let unit: u64 = power_of_two(f.m) as u64;
    proof {
        lemma_fundamental_div_mod(code as int, unit as int);
    }
    if code < unit {
        proof {
            assert(code * pow2(0) == code);
        }
        (code, 0)
    } else {
        let field = code / unit;
        proof {
            assert(field >= 1 && field < f.top) by (nonlinear_arith)
                requires
                    code == unit * field + code % unit,
                    code % unit < unit,
                    code >= unit,
                    code < f.top * unit,
                    unit > 0,
            ;
            assert(code as nat / pow2(f.m as nat) == field);
            assert(code as nat % pow2(f.m as nat) == code % unit);
        }
        (unit + code % unit, (field - 1) as u32)
    }
}

/// Rounds an exactly known multiple of a power of two.
fn round_exact(f: Format, sig: u128, e: u32, s: u32, Ghost(n): Ghost<nat>, Ghost(d): Ghost<nat>) -> (code:
    u64)
    requires
        f.supported(),
        e <= 0x10000,
        s <= 0x10000,
        d > 0,
        sig < pow2(127),
        sig * (pow2(e as nat) * d) == n * pow2(s as nat),
    ensures
        code == f.nearest(n, d),
        code <= f.infinity(),
{
    proof {
        lemma_pow2_pos(e as nat);
        let ed = pow2(e as nat) * d;
        assert(ed > 0) by (nonlinear_arith)
            requires
                ed == pow2(e as nat) * d,
                pow2(e as nat) > 0,
                d > 0,
        ;
        assert((sig + 1) * ed == sig * ed + ed) by (nonlinear_arith);
    }
    round_significand(f.m, f.top, sig, e, s, false, Ghost(n), Ghost(d))
}

proof fn lemma_small_powers()
    ensures
        pow2(54) == 0x40_0000_0000_0000,
        pow2(53) == 0x20_0000_0000_0000,
        pow2(60) == 0x1000_0000_0000_0000,
        pow2(64) == 0x1_0000_0000_0000_0000,
        pow2(127) > 0x20_0000_0000_0000 * 0x20_0000_0000_0000,
        pow2(127) > 2 * (0x20_0000_0000_0000 * 0x1_0000_0000_0000_0000),
{
    vstd::arithmetic::power2::lemma2_to64();
    vstd::arithmetic::power2::lemma2_to64_rest();
    lemma_pow2_adds(53, 53);
    lemma_pow2_adds(53, 64);
    lemma_pow2_unfold(118);
    lemma_pow2_strictly_increases(106, 127);
    lemma_pow2_strictly_increases(118, 127);
}

/// Two magnitudes at one exponent: the larger exactly, the smaller rounded
/// down, and whether that lost anything.
struct Aligned {
    large: u128,
    small: u128,
    e: u32,
    sticky: bool,
}

#[verifier::rlimit(60)]
fn align(f: Format, large: (u64, u32), small: (u64, u32)) -> (r: Aligned)
    requires
        f.supported(),
        large.0 < 2 * pow2(f.m as nat),
        small.0 < 2 * pow2(f.m as nat),
        large.1 > 0 ==> large.0 >= pow2(f.m as nat),
        small.1 <= large.1 < 2047,
    ensures
        large.0 * pow2(large.1 as nat) == r.large * pow2(r.e as nat),
        r.small * pow2(r.e as nat) <= small.0 * pow2(small.1 as nat) < (r.small + 1) * pow2(
            r.e as nat,
        ),
        r.sticky <==> r.small * pow2(r.e as nat) < small.0 * pow2(small.1 as nat),
        r.sticky ==> r.large >= 0x1000_0000_0000_0000 * pow2(f.m as nat),
        r.large < 0x20_0000_0000_0000 * 0x1_0000_0000_0000_0000,
        r.small < 0x20_0000_0000_0000,
        r.e < 2047,
{
    proof {
        lemma_format(f);
        lemma_small_powers();
    }
    let diff = large.1 - small.1;
    if diff <= 60 {
        proof {
            lemma_pow2_adds(diff as nat, small.1 as nat);
            lemma_pow2_pos(small.1 as nat);
            if diff < 60 {
                lemma_pow2_strictly_increases(diff as nat, 60);
            }
            let x = large.0 * pow2(diff as nat);
            assert(x < 0x20_0000_0000_0000 * 0x1_0000_0000_0000_0000) by (nonlinear_arith)
                requires
                    x == large.0 * pow2(diff as nat),
                    large.0 < 0x20_0000_0000_0000,
                    pow2(diff as nat) <= 0x1000_0000_0000_0000,
            ;
            assert(large.0 * pow2(large.1 as nat) == x * pow2(small.1 as nat)) by (nonlinear_arith)
                requires
                    x == large.0 * pow2(diff as nat),
                    pow2(large.1 as nat) == pow2(diff as nat) * pow2(small.1 as nat),
            ;
            assert((small.0 + 1) * pow2(small.1 as nat) == small.0 * pow2(small.1 as nat) + pow2(
                small.1 as nat,
            )) by (nonlinear_arith);
        }
        Aligned {
            large: large.0 as u128 * power_of_two(diff),
            small: small.0 as u128,
            e: small.1,
            sticky: false,
        }
    } else {
        let e = large.1 - 60;
        let t = diff - 60;
        let ghost pe = pow2(e as nat);
        let ghost ps = pow2(small.1 as nat);
        let ghost pt = pow2(t as nat);
        proof {
            lemma_pow2_adds(60, e as nat);
            lemma_pow2_adds(t as nat, small.1 as nat);
            lemma_pow2_pos(small.1 as nat);
            lemma_pow2_pos(t as nat);
            let x = large.0 * 0x1000_0000_0000_0000;
            assert(x < 0x20_0000_0000_0000 * 0x1_0000_0000_0000_0000) by (nonlinear_arith)
                requires
                    x == large.0 * 0x1000_0000_0000_0000,
                    large.0 < 0x20_0000_0000_0000,
            ;
            assert(large.0 * pow2(large.1 as nat) == x * pe) by (nonlinear_arith)
                requires
                    x == large.0 * 0x1000_0000_0000_0000,
                    pow2(large.1 as nat) == 0x1000_0000_0000_0000 * pe,
            ;
            assert(x >= 0x1000_0000_0000_0000 * pow2(f.m as nat)) by (nonlinear_arith)
                requires
                    x == large.0 * 0x1000_0000_0000_0000,
                    large.0 >= pow2(f.m as nat),
            ;
            assert(pe == pt * ps);
        }
        let (y, rest): (u64, u64) = if t < 64 {
            proof {
                lemma_pow2_strictly_increases(t as nat, 64);
            }
            let p = power_of_two(t) as u64;
            (small.0 / p, small.0 % p)
        } else {
            (0, small.0)
        };
        proof {
            if t >= 64 {
                if t > 64 {
                    lemma_pow2_strictly_increases(64, t as nat);
                }
                assert(0 * pt == 0);
            } else {
                lemma_fundamental_div_mod(small.0 as int, pt as int);
                assert(pt * y == y * pt) by (nonlinear_arith);
                assert(y <= small.0) by (nonlinear_arith)
                    requires
                        small.0 == pt * y + rest,
                        pt >= 1,
                ;
            }
            assert(small.0 == y * pt + rest && rest < pt);
            assert(y * pe <= small.0 * ps && small.0 * ps < (y + 1) * pe && (rest > 0) == (y * pe
                < small.0 * ps)) by (nonlinear_arith)
                requires
                    small.0 == y * pt + rest,
                    0 <= rest < pt,
                    pe == pt * ps,
                    ps > 0,
            ;
        }
        Aligned {
            large: large.0 as u128 * power_of_two(60),
            small: y as u128,
            e,
            sticky: rest != 0,
        }
    }
}

/// Adds two finite magnitudes.
#[verifier::rlimit(60)]
fn add_codes(f: Format, a: u64, b: u64) -> (code: u64)
    requires
        f.supported(),
        a < f.infinity(),
        b < f.infinity(),
    ensures
        code == f.nearest(units(f.m as nat, a as nat) + units(f.m as nat, b as nat), 1),
        code <= f.infinity(),
{
    let da = decode(f, a);
    let db = decode(f, b);
    let r = if da.1 >= db.1 {
        align(f, da, db)
    } else {
        align(f, db, da)
    };
    let ghost n = units(f.m as nat, a as nat) + units(f.m as nat, b as nat);
    let sig = r.large + r.small;
    proof {
        lemma_small_powers();
        lemma_format(f);
        let pe = pow2(r.e as nat);
        assert(pow2(0) == 1) by {
            vstd::arithmetic::power2::lemma2_to64();
        }
        assert((r.large + r.small) * pe == r.large * pe + r.small * pe && (r.large + r.small + 1)
            * pe == r.large * pe + (r.small + 1) * pe) by (nonlinear_arith);
        assert(pe * 1 == pe);
        assert(n * 1 == n);
        if r.sticky {
            lemma_pow2_adds(2, f.m as nat);
        }
        assert(pow2(2) == 4) by {
            vstd::arithmetic::power2::lemma2_to64();
        }
    }
    round_significand(f.m, f.top, sig, r.e, 0, r.sticky, Ghost(n), Ghost(1))
}

/// Subtracts a finite magnitude from a larger one.
#[verifier::rlimit(60)]
fn sub_codes(f: Format, a: u64, b: u64) -> (code: u64)
    requires
        f.supported(),
        b < a < f.infinity(),
    ensures
        code == f.nearest((units(f.m as nat, a as nat) - units(f.m as nat, b as nat)) as nat, 1),
        code <= f.infinity(),
        units(f.m as nat, a as nat) > units(f.m as nat, b as nat),
{
    let da = decode(f, a);
    let db = decode(f, b);
    proof {
        lemma_format(f);
        lemma_units_strict(f.m as nat, b as nat, a as nat);
        vstd::arithmetic::div_mod::lemma_div_is_ordered(
            b as int,
            a as int,
            pow2(f.m as nat) as int,
        );
        if b >= pow2(f.m as nat) {
            vstd::arithmetic::div_mod::lemma_div_non_zero(b as int, pow2(f.m as nat) as int);
        }
    }
    let r = align(f, da, db);
    let ghost n = (units(f.m as nat, a as nat) - units(f.m as nat, b as nat)) as nat;
    proof {
        lemma_small_powers();
        let pe = pow2(r.e as nat);
        lemma_pow2_pos(r.e as nat);
        assert(pow2(0) == 1 && pow2(2) == 4) by {
            vstd::arithmetic::power2::lemma2_to64();
        }
        assert(r.large > r.small) by (nonlinear_arith)
            requires
                r.large * pe > r.small * pe,
                pe > 0,
        ;
        assert(r.large * pe - r.small * pe == (r.large - r.small) * pe && (r.large - r.small - 1)
            * pe == r.large * pe - (r.small + 1) * pe && (r.large - r.small + 1) * pe == r.large
            * pe - r.small * pe + pe) by (nonlinear_arith);
        assert(pe * 1 == pe);
        assert(n * 1 == n);
        lemma_pow2_adds(2, f.m as nat);
    }
    let sig = if r.sticky {
        r.large - r.small - 1
    } else {
        r.large - r.small
    };
    round_significand(f.m, f.top, sig, r.e, 0, r.sticky, Ghost(n), Ghost(1))
}

/// The code of infinity.
pub fn infinity_code(f: Format) -> (code: u64)
    requires
        f.supported(),
    ensures
        code == f.infinity(),
{
    proof {
        lemma_format(f);
    }
    f.top as u64 * power_of_two(f.m) as u64
}

fn quiet_nan(f: Format) -> (r: Number)
    requires
        f.supported(),
    ensures
        r == f.quiet_nan(),
        r.fits(f),
        r.is_nan(f),
{
    proof {
        lemma_format(f);
        lemma_pow2_pos((f.m - 1) as nat);
    }
    Number { negative: false, code: infinity_code(f) + power_of_two(f.m - 1) as u64 }
}

/// Adds two numbers.
pub fn add_numbers(f: Format, a: Number, b: Number) -> (r: Number)
    requires
        f.supported(),
        a.fits(f),
        b.fits(f),
    ensures
        r == sum(f, a, b),
        r.fits(f),
{
    let inf = infinity_code(f);
    proof {
        lemma_format(f);
    }
    if a.code > inf || b.code > inf {
        quiet_nan(f)
    } else if a.code == inf {
        if b.code == inf && a.negative != b.negative {
            quiet_nan(f)
        } else {
            a
        }
    } else if b.code == inf {
        b
    } else {
        let ghost (ma, mb) = (a.magnitude(f), b.magnitude(f));
        if a.negative == b.negative {
            let code = add_codes(f, a.code, b.code);
            proof {
                lemma_magnitude_zero(f, a.code as nat);
                lemma_magnitude_zero(f, b.code as nat);
                if ma + mb == 0 {
                    lemma_nearest_zero(f, 1);
                }
            }
            Number { negative: a.negative, code }
        } else if a.code == b.code {
            Number { negative: false, code: 0 }
        } else if a.code > b.code {
            Number { negative: a.negative, code: sub_codes(f, a.code, b.code) }
        } else {
            Number { negative: b.negative, code: sub_codes(f, b.code, a.code) }
        }
    }
}

/// Only the code 0 is worth nothing.
pub proof fn lemma_magnitude_zero(f: Format, code: nat)
    ensures
        units(f.m as nat, code) == 0 <==> code == 0,
{
    lemma_pow2_pos(f.m as nat);
    if code > 0 {
        lemma_units_strict(f.m as nat, 0, code);
    }
}

/// Nothing rounds to zero.
pub proof fn lemma_nearest_zero(f: Format, d: nat)
    requires
        d > 0,
    ensures
        f.nearest(0, d) == 0,
{
    lemma_magnitude_zero(f, 0);
    lemma_round_code_exact(f.m as nat, 0, d);
    assert(0 * d == 0);
    assert(f.infinity() >= 0);
}

/// Multiplies two numbers.
pub fn mul_numbers(f: Format, a: Number, b: Number) -> (r: Number)
    requires
        f.supported(),
        a.fits(f),
        b.fits(f),
    ensures
        r == product(f, a, b),
        r.fits(f),
{
    let inf = infinity_code(f);
    let negative = a.negative != b.negative;
    proof {
        lemma_format(f);
    }
    if a.code > inf || b.code > inf {
        quiet_nan(f)
    } else if a.code == inf || b.code == inf {
        if a.code == 0 || b.code == 0 {
            quiet_nan(f)
        } else {
            Number { negative, code: inf }
        }
    } else {
        let da = decode(f, a.code);
        let db = decode(f, b.code);
        let ghost n = a.magnitude(f) * b.magnitude(f);
        let ghost d = pow2(f.scale as nat);
        proof {
            lemma_small_powers();
            lemma_pow2_pos(f.scale as nat);
            lemma_pow2_adds(da.1 as nat, db.1 as nat);
            assert(da.0 * db.0 <= 0x20_0000_0000_0000 * 0x20_0000_0000_0000) by (nonlinear_arith)
                requires
                    da.0 <= 0x20_0000_0000_0000,
                    db.0 <= 0x20_0000_0000_0000,
            ;
            let pa = pow2(da.1 as nat);
            let pb = pow2(db.1 as nat);
            assert((da.0 * db.0) * ((pa * pb) * d) == n * d) by (nonlinear_arith)
                requires
                    n == (da.0 * pa) * (db.0 * pb),
            ;
        }
        let sig = da.0 as u128 * db.0 as u128;
        let code = round_exact(f, sig, da.1 + db.1, f.scale, Ghost(n), Ghost(d));
        Number { negative, code }
    }
}

/// Divides one number by another, in a format whose significands leave room
/// for the quotient.
#[verifier::rlimit(60)]
pub fn div_numbers(f: Format, a: Number, b: Number) -> (r: Number)
    requires
        f.supported(),
        f.m <= 30,
        a.fits(f),
        b.fits(f),
    ensures
        r == quotient(f, a, b),
        r.fits(f),
{
    let inf = infinity_code(f);
    let negative = a.negative != b.negative;
    proof {
        lemma_format(f);
        lemma_magnitude_zero(f, b.code as nat);
    }
    if a.code > inf || b.code > inf {
        return quiet_nan(f);
    }
    if a.code == inf {
        if b.code == inf {
            return quiet_nan(f);
        }
        return Number { negative, code: inf };
    }
    if b.code == inf {
        return Number { negative, code: 0 };
    }
    if b.code == 0 {
        if a.code == 0 {
            return quiet_nan(f);
        }
        return Number { negative, code: inf };
    }
    let da = decode(f, a.code);
    let db = decode(f, b.code);
    let ghost n = a.magnitude(f) * pow2(f.scale as nat);
    let ghost d = b.magnitude(f);
    if a.code == 0 {
        proof {
            lemma_magnitude_zero(f, 0);
            lemma_nearest_zero(f, d);
            assert(0 * pow2(f.scale as nat) == 0);
        }
        return Number { negative, code: 0 };
    }
    proof {
        lemma_small_powers();
    }
    let num = da.0 as u128 * power_of_two(64);
    let sig = num / db.0 as u128;
    let rest = num % db.0 as u128;
    let e = da.1 + f.scale;
    let s = 64 + db.1;
    proof {
        lemma_fundamental_div_mod(num as int, db.0 as int);
        lemma_pow2_adds(da.1 as nat, f.scale as nat);
        lemma_pow2_adds(64, db.1 as nat);
        let (pa, pb, ps) = (pow2(da.1 as nat), pow2(db.1 as nat), pow2(f.scale as nat));
        lemma_pow2_pos(da.1 as nat);
        lemma_pow2_pos(db.1 as nat);
        lemma_pow2_pos(f.scale as nat);
        let w = (pa * ps) * pb;
        assert(w > 0) by (nonlinear_arith)
            requires
                w == (pa * ps) * pb,
                pa > 0,
                pb > 0,
                ps > 0,
        ;
        assert((pa * ps) * d == db.0 * w) by (nonlinear_arith)
            requires
                w == (pa * ps) * pb,
                d == db.0 * pb,
        ;
        assert(n * (0x1_0000_0000_0000_0000 * pb) == num * w) by (nonlinear_arith)
            requires
                n == (da.0 * pa) * ps,
                num == da.0 * 0x1_0000_0000_0000_0000,
                w == (pa * ps) * pb,
        ;
        assert(sig * (db.0 * w) <= num * w && num * w < (sig + 1) * (db.0 * w) && (rest > 0) == (sig
            * (db.0 * w) < num * w)) by (nonlinear_arith)
            requires
                num == db.0 * sig + rest,
                0 <= rest < db.0,
                w > 0,
        ;
        assert(sig <= num) by (nonlinear_arith)
            requires
                num == db.0 * sig + rest,
                db.0 >= 1,
                rest >= 0,
        ;
        lemma_quotient_is_wide(f, num as nat, db.0 as nat, sig as nat, rest as nat);
    }
    let code = round_significand(f.m, f.top, sig, e, s, rest != 0, Ghost(n), Ghost(d));
    Number { negative, code }
}

proof fn lemma_quotient_is_wide(f: Format, num: nat, den: nat, sig: nat, rest: nat)
    requires
        f.supported(),
        f.m <= 30,
        num >= 0x1_0000_0000_0000_0000,
        den < 2 * pow2(f.m as nat),
        num == den * sig + rest,
        rest < den,
    ensures
        sig >= pow2((f.m + 2) as nat),
{
    lemma_small_powers();
    vstd::arithmetic::power2::lemma2_to64();
    let p = pow2(f.m as nat);
    lemma_pow2_adds(2, f.m as nat);
    if f.m < 30 {
        lemma_pow2_strictly_increases(f.m as nat, 30);
    }
    assert(sig >= 4 * p) by (nonlinear_arith)
        requires
            num >= 0x1_0000_0000_0000_0000,
            den < 2 * p,
            p <= 0x4000_0000,
            num == den * sig + rest,
            rest < den,
    ;
}

/// Compares two numbers.
pub fn less_than(f: Format, a: Number, b: Number) -> (yes: bool)
    requires
        f.supported(),
    ensures
        yes == less(f, a, b),
{
    let inf = infinity_code(f);
    if a.code > inf || b.code > inf {
        false
    } else if a.negative {
        if b.negative {
            a.code > b.code
        } else {
            a.code > 0 || b.code > 0
        }
    } else {
        !b.negative && a.code < b.code
    }
}

/// Converts a number to a format that is at least as fine.
pub fn convert_number(from: Format, to: Format, a: Number) -> (r: Number)
    requires
        from.supported(),
        to.supported(),
        from.scale <= to.scale,
        a.fits(from),
    ensures
        r == converted(from, to, a),
        r.fits(to),
{
    let inf = infinity_code(from);
    proof {
        lemma_format(from);
        lemma_format(to);
    }
    if a.code > inf {
        quiet_nan(to)
    } else if a.code == inf {
        Number { negative: a.negative, code: infinity_code(to) }
    } else {
        let d = decode(from, a.code);
        let up = to.scale - from.scale;
        let ghost n = a.magnitude(from) * pow2(up as nat);
        proof {
            lemma_small_powers();
            lemma_pow2_adds(d.1 as nat, up as nat);
            assert(pow2(0) == 1) by {
                vstd::arithmetic::power2::lemma2_to64();
            }
            let (pd, pu) = (pow2(d.1 as nat), pow2(up as nat));
            assert(d.0 * ((pd * pu) * 1) == n * 1) by (nonlinear_arith)
                requires
                    n == (d.0 * pd) * pu,
            ;
        }
        let code = round_exact(to, d.0 as u128, d.1 + up, 0, Ghost(n), Ghost(1));
        Number { negative: a.negative, code }
    }
}

/// The number nearest to a count.
pub fn count_to_number(f: Format, count: u64) -> (r: Number)
    requires
        f.supported(),
    ensures
        r == (Number { negative: false, code: f.nearest(count as nat * pow2(f.scale as nat), 1) as u64 }),
        r.fits(f),
        r.code <= f.infinity(),
{
    let ghost n = count as nat * pow2(f.scale as nat);
    proof {
        lemma_format(f);
        lemma_small_powers();
        lemma_pow2_adds(0, f.scale as nat);
        vstd::arithmetic::power2::lemma2_to64();
        assert(count * (pow2(f.scale as nat) * 1) == n * 1);
    }
    let code = round_exact(f, count as u128, f.scale, 0, Ghost(n), Ghost(1));
    Number { negative: false, code }
}

/// The sum of an accumulator without a minus sign and a number that is not negative.
pub proof fn lemma_sum_nonnegative(f: Format, a: Number, b: Number)
    requires
        !a.negative,
        !a.is_nan(f),
        !b.is_nan(f),
        b.negative ==> b.code == 0,
        f.supported(),
    ensures
        sum(f, a, b).code <= f.infinity(),
        !sum(f, a, b).negative,
        sum(f, a, b).code == (if a.is_infinite(f) || b.is_infinite(f) {
            f.infinity()
        } else {
            f.nearest(a.magnitude(f) + b.magnitude(f), 1)
        }),
        b.code == 0 ==> sum(f, a, b) == a,
{
    lemma_format(f);
    lemma_magnitude_zero(f, a.code as nat);
    lemma_magnitude_zero(f, b.code as nat);
    lemma_nearest_zero(f, 1);
    lemma_round_code_exact(f.m as nat, a.code as nat, 1);
    assert(units(f.m as nat, a.code as nat) * 1 == units(f.m as nat, a.code as nat));
}

/// A rounded sum is off by at most one part in `2^(m+1)`, unless it overflows.
pub proof fn lemma_sum_error(f: Format, n: nat)
    ensures
        pow2((f.m + 1) as nat) * units(f.m as nat, f.nearest(n, 1)) <= (pow2((f.m + 1) as nat) + 1)
            * n,
        f.nearest(n, 1) < f.infinity() ==> (pow2((f.m + 1) as nat) - 1) * n <= pow2(
            (f.m + 1) as nat,
        ) * units(f.m as nat, f.nearest(n, 1)),
{
    let m = f.m as nat;
    let exact = round_code(m, n, 1);
    lemma_round_error(m, n, 1);
    assert(units(m, exact) * 1 == units(m, exact));
    let p = pow2(m + 1);
    if f.nearest(n, 1) < exact {
        lemma_units_strict(m, f.nearest(n, 1), exact);
        assert(p * units(m, f.nearest(n, 1)) <= p * units(m, exact)) by (nonlinear_arith)
            requires
                units(m, f.nearest(n, 1)) <= units(m, exact),
        ;
    }
}

} // verus!
