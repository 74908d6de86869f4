//! Rounding to a binary floating-point grid, on plain integers.
//!
//! A format with `m` stored significand bits numbers its non-negative values
//! consecutively from zero: that number is the *code* of the value, and it is
//! also its bit pattern. A value is measured in *units* of the smallest
//! positive one, so that every value of the format is an integer.
use vstd::arithmetic::div_mod::lemma_fundamental_div_mod;
use vstd::arithmetic::div_mod::lemma_fundamental_div_mod_converse;
use vstd::arithmetic::power2::lemma_pow2_adds;
use vstd::arithmetic::power2::lemma_pow2_pos;
use vstd::arithmetic::power2::lemma_pow2_strictly_increases;
use vstd::arithmetic::power2::lemma_pow2_unfold;
use vstd::arithmetic::power2::pow2;
use vstd::prelude::*;

verus! {

/// How many units the value with this code is worth.
pub open spec fn units(m: nat, code: nat) -> nat {
    if code < pow2(m) {
        code
    } else {
        (pow2(m) + code % pow2(m)) * pow2((code / pow2(m) - 1) as nat)
    }
}

/// The integer nearest to `n / d`, the even one of two equally near.
pub open spec fn nearest_even(n: nat, d: nat) -> nat {
    let q = n / d;
    let r = n % d;
    if 2 * r < d {
        q
    } else if 2 * r > d {
        q + 1
    } else {
        q + q % 2
    }
}

/// The code of the value nearest to `n / d` units, where the exponent has no
/// upper limit. Values below `2^(m+1)` units are one unit apart; from there on
/// the distance doubles with each power of two.
pub open spec fn round_code(m: nat, n: nat, d: nat) -> nat
    recommends
        d > 0,
    decreases n - d,
    when d > 0
{
    if n < d * pow2(m + 1) {
        nearest_even(n, d)
    } else {
        proof {
            lemma_double_below(m, n, d);
        }
        pow2(m) + round_code(m, n, 2 * d)
    }
}

/// A ratio of at least `2^(m+1)` units is one of at least two.
pub proof fn lemma_double_below(m: nat, n: nat, d: nat)
    requires
        d > 0,
        n >= d * pow2(m + 1),
    ensures
        n >= 2 * d,
{
    lemma_pow2_unfold(m + 1);
    lemma_pow2_pos(m);
    assert(d * pow2(m + 1) >= d * 2) by (nonlinear_arith)
        requires
            pow2(m + 1) >= 2,
            d > 0,
    ;
}

/// `round_code` with the spacing `2^k` made explicit.
pub proof fn lemma_round_code_at(m: nat, n: nat, d: nat, k: nat)
    requires
        d > 0,
        n < d * pow2(m + 1 + k),
        k == 0 || n >= d * pow2(m + k),
    ensures
        round_code(m, n, d) == k * pow2(m) + nearest_even(n, d * pow2(k)),
    decreases k,
{
    if k == 0 {
        assert(pow2(0) == 1) by {
            vstd::arithmetic::power2::lemma2_to64();
        }
        assert(d * pow2(0) == d);
    } else {
        let j = (k - 1) as nat;
        lemma_pow2_unfold(m + 1 + k);
        lemma_pow2_unfold(m + k);
        lemma_pow2_unfold(k);
        assert(m + 1 + j == m + k);
        assert(d * (2 * pow2(m + k)) == (2 * d) * pow2(m + k)) by (nonlinear_arith);
        assert(d * (2 * pow2(m + j)) == (2 * d) * pow2(m + j)) by (nonlinear_arith);
        assert(d * (2 * pow2(j)) == (2 * d) * pow2(j)) by (nonlinear_arith);
        assert(n >= d * pow2(m + 1)) by {
            if k > 1 {
                lemma_pow2_strictly_increases(m + 1, m + k);
                assert(d * pow2(m + k) >= d * pow2(m + 1)) by (nonlinear_arith)
                    requires
                        pow2(m + k) >= pow2(m + 1),
                ;
            }
        }
        lemma_round_code_at(m, n, 2 * d, j);
        assert(k * pow2(m) == pow2(m) + j * pow2(m)) by (nonlinear_arith)
            requires
                k == j + 1,
        ;
    }
}

/// A quotient and a remainder that decide `nearest_even`.
pub proof fn lemma_nearest_even_at(n: nat, d: nat, q: nat, r: nat)
    requires
        n == q * d + r,
        r < d,
    ensures
        2 * r < d ==> nearest_even(n, d) == q,
        2 * r > d ==> nearest_even(n, d) == q + 1,
        2 * r == d ==> nearest_even(n, d) == q + q % 2,
{
    lemma_fundamental_div_mod_converse(n as int, d as int, q as int, r as int);
}

/// `nearest_even` is off by at most half.
pub proof fn lemma_nearest_even_error(n: nat, d: nat)
    requires
        d > 0,
    ensures
        2 * (nearest_even(n, d) * d) <= 2 * n + d,
        2 * n <= 2 * (nearest_even(n, d) * d) + d,
{
    lemma_fundamental_div_mod(n as int, d as int);
    let q = n / d;
    assert(d * q == q * d) by (nonlinear_arith);
    assert((q + 1) * d == q * d + d) by (nonlinear_arith);
}

/// `nearest_even` keeps the order.
pub proof fn lemma_nearest_even_monotone(n1: nat, n2: nat, d: nat)
    requires
        d > 0,
        n1 <= n2,
    ensures
        nearest_even(n1, d) <= nearest_even(n2, d),
{
    let (q1, r1) = (n1 / d, n1 % d);
    let (q2, r2) = (n2 / d, n2 % d);
    lemma_fundamental_div_mod(n1 as int, d as int);
    lemma_fundamental_div_mod(n2 as int, d as int);
    if q1 > q2 {
        assert(d * q1 >= d * q2 + d) by (nonlinear_arith)
            requires
                q1 >= q2 + 1,
                d > 0,
        ;
    }
}

/// Rounding to whole multiples of `d` cannot leave an interval whose ends are
/// such multiples.
pub proof fn lemma_nearest_even_bounds(n: nat, d: nat, lo: nat, hi: nat)
    requires
        d > 0,
        lo * d <= n <= hi * d,
    ensures
        lo <= nearest_even(n, d) <= hi,
{
    lemma_nearest_even_monotone(lo * d, n, d);
    lemma_nearest_even_monotone(n, hi * d, d);
    lemma_nearest_even_at(lo * d, d, lo, 0);
    lemma_nearest_even_at(hi * d, d, hi, 0);
}

/// `round_code` keeps the order.
pub proof fn lemma_round_code_monotone(m: nat, n1: nat, n2: nat, d: nat)
    requires
        d > 0,
        n1 <= n2,
    ensures
        round_code(m, n1, d) <= round_code(m, n2, d),
    decreases n2 - d,
{
    let top = d * pow2(m + 1);
    if n2 < top {
        lemma_nearest_even_monotone(n1, n2, d);
    } else {
        lemma_double_below(m, n2, d);
        if n1 >= top {
            lemma_round_code_monotone(m, n1, n2, 2 * d);
        } else {
            assert(pow2(m + 1) * d == d * pow2(m + 1)) by (nonlinear_arith);
            lemma_nearest_even_bounds(n1, d, 0, pow2(m + 1));
            lemma_pow2_unfold(m + 1);
            assert((2 * d) * pow2(m) == d * (2 * pow2(m))) by (nonlinear_arith);
            lemma_round_code_floor(m, n2, 2 * d);
        }
    }
}

/// What is worth at least `2^m` units has a code of at least `2^m`.
proof fn lemma_round_code_floor(m: nat, n: nat, d: nat)
    requires
        d > 0,
        n >= d * pow2(m),
    ensures
        round_code(m, n, d) >= pow2(m),
{
    if n < d * pow2(m + 1) {
        assert(pow2(m) * d == d * pow2(m)) by (nonlinear_arith);
        assert(pow2(m + 1) * d == d * pow2(m + 1)) by (nonlinear_arith);
        lemma_nearest_even_bounds(n, d, pow2(m), pow2(m + 1));
    }
}

/// The value whose significand is `q` at spacing `2^k`.
pub proof fn lemma_units_of_parts(m: nat, k: nat, q: nat)
    requires
        q <= pow2(m + 1),
        k == 0 || q >= pow2(m),
    ensures
        units(m, k * pow2(m) + q) == q * pow2(k),
{
    let p = pow2(m);
    let code = k * p + q;
    lemma_pow2_pos(m);
    lemma_pow2_unfold(m + 1);
    if q < p {
        assert(pow2(0) == 1) by {
            vstd::arithmetic::power2::lemma2_to64();
        }
        assert(k * p == 0) by (nonlinear_arith)
            requires
                k == 0,
        ;
        assert(q * pow2(0) == q);
    } else if q < 2 * p {
        assert(code == (k + 1) * p + (q - p)) by (nonlinear_arith)
            requires
                code == k * p + q,
        ;
        lemma_fundamental_div_mod_converse(code as int, p as int, (k + 1) as int, q - p);
        assert(code >= p) by (nonlinear_arith)
            requires
                code == k * p + q,
                q >= p,
        ;
    } else {
        assert(code == (k + 2) * p + 0) by (nonlinear_arith)
            requires
                code == k * p + q,
                q == 2 * p,
        ;
        lemma_fundamental_div_mod_converse(code as int, p as int, (k + 2) as int, 0);
        assert(code >= p) by (nonlinear_arith)
            requires
                code == k * p + q,
                q >= p,
        ;
        lemma_pow2_unfold(k + 1);
        assert(p * (2 * pow2(k)) == (2 * p) * pow2(k)) by (nonlinear_arith);
    }
}

/// The spacing exponent of the binade that holds `n / d` units.
proof fn lemma_binade(m: nat, n: nat, d: nat) -> (k: nat)
    requires
        d > 0,
    ensures
        n < d * pow2(m + 1 + k),
        k == 0 || n >= d * pow2(m + k),
    decreases n - d,
{
    if n < d * pow2(m + 1) {
        0
    } else {
        lemma_double_below(m, n, d);
        let j = lemma_binade(m, n, 2 * d);
        let k = j + 1;
        lemma_pow2_unfold(m + 1 + k);
        lemma_pow2_unfold(m + k);
        assert(m + 1 + j == m + k);
        assert(d * (2 * pow2(m + k)) == (2 * d) * pow2(m + k)) by (nonlinear_arith);
        assert(d * (2 * pow2(m + j)) == (2 * d) * pow2(m + j)) by (nonlinear_arith);
        k
    }
}

/// The spacing exponent and the significand of a code.
pub proof fn lemma_parts_of_code(m: nat, code: nat) -> (parts: (nat, nat))
    ensures
        code == parts.0 * pow2(m) + parts.1,
        parts.1 < pow2(m + 1),
        parts.0 == 0 || parts.1 >= pow2(m),
        units(m, code) == parts.1 * pow2(parts.0),
{
    let p = pow2(m);
    lemma_pow2_pos(m);
    lemma_pow2_unfold(m + 1);
    lemma_fundamental_div_mod(code as int, p as int);
    let k: nat = if code < p {
        0
    } else {
        (code / p - 1) as nat
    };
    if code >= p {
        assert(code / p >= 1) by (nonlinear_arith)
            requires
                code == p * (code / p) + code % p,
                code % p < p,
                code >= p,
                p > 0,
        ;
    }
    assert(k * p + p == p * (k + 1)) by (nonlinear_arith);
    assert(code >= p ==> p * (k + 1) == p * (code / p));
    assert(code < p ==> k * p == 0) by (nonlinear_arith)
        requires
            code < p ==> k == 0,
    ;
    let q = (code - k * p) as nat;
    assert(code >= p ==> q == p + code % p);
    lemma_units_of_parts(m, k, q);
    (k, q)
}

/// A significand of at most `m + 1` bits at any spacing rounds to itself.
pub proof fn lemma_round_dyadic(m: nat, q: nat, j: nat)
    requires
        q < pow2(m + 1),
    ensures
        units(m, round_code(m, q * pow2(j), 1)) == q * pow2(j),
{
    let n = q * pow2(j);
    let k = lemma_binade(m, n, 1);
    lemma_pow2_pos(j);
    lemma_pow2_pos(k);
    lemma_pow2_adds(m + 1, j);
    assert(n < pow2(m + 1 + j)) by (nonlinear_arith)
        requires
            n == q * pow2(j),
            q < pow2(m + 1),
            pow2(m + 1 + j) == pow2(m + 1) * pow2(j),
            pow2(j) > 0,
    ;
    assert(k <= j) by {
        if k > j && m + 1 + j < m + k {
            lemma_pow2_strictly_increases(m + 1 + j, m + k);
        }
    }
    let i = (j - k) as nat;
    lemma_pow2_adds(i, k);
    let c = q * pow2(i);
    assert(n == c * pow2(k)) by (nonlinear_arith)
        requires
            n == q * pow2(j),
            c == q * pow2(i),
            pow2(j) == pow2(i) * pow2(k),
    ;
    lemma_round_code_at(m, n, 1, k);
    assert(1 * pow2(k) == pow2(k));
    lemma_nearest_even_at(n, pow2(k), c, 0);
    lemma_pow2_adds(m + 1, k);
    lemma_pow2_adds(m, k);
    assert(c < pow2(m + 1)) by (nonlinear_arith)
        requires
            c * pow2(k) < pow2(m + 1) * pow2(k),
            pow2(k) > 0,
    ;
    if k > 0 {
        assert(c >= pow2(m)) by (nonlinear_arith)
            requires
                c * pow2(k) >= pow2(m) * pow2(k),
                pow2(k) > 0,
        ;
    }
    lemma_units_of_parts(m, k, c);
}

/// Every value of the format rounds to itself.
pub proof fn lemma_round_code_exact(m: nat, code: nat, d: nat)
    requires
        d > 0,
    ensures
        round_code(m, units(m, code) * d, d) == code,
{
    let (k, q) = lemma_parts_of_code(m, code);
    let n = units(m, code) * d;
    lemma_pow2_pos(k);
    lemma_pow2_adds(m + 1, k);
    lemma_pow2_adds(m, k);
    assert(n == q * (d * pow2(k))) by (nonlinear_arith)
        requires
            n == (q * pow2(k)) * d,
    ;
    assert(n < d * pow2(m + 1 + k)) by (nonlinear_arith)
        requires
            n == q * (d * pow2(k)),
            q < pow2(m + 1),
            pow2(m + 1 + k) == pow2(m + 1) * pow2(k),
            d > 0,
            pow2(k) > 0,
    ;
    if k > 0 {
        assert(n >= d * pow2(m + k)) by (nonlinear_arith)
            requires
                n == q * (d * pow2(k)),
                q >= pow2(m),
                pow2(m + k) == pow2(m) * pow2(k),
                d > 0,
                pow2(k) > 0,
        ;
    }
    assert(d * pow2(k) > 0) by (nonlinear_arith)
        requires
            d > 0,
            pow2(k) > 0,
    ;
    lemma_round_code_at(m, n, d, k);
    lemma_nearest_even_at(n, d * pow2(k), q, 0);
}

/// A greater code is worth more units.
pub proof fn lemma_units_strict(m: nat, a: nat, b: nat)
    requires
        a < b,
    ensures
        units(m, a) < units(m, b),
{
    lemma_round_code_exact(m, a, 1);
    lemma_round_code_exact(m, b, 1);
    if units(m, b) <= units(m, a) {
        lemma_round_code_monotone(m, units(m, b), units(m, a), 1);
    }
}

/// From `2^m` units on, rounding is off by at most one part in `2^(m+1)`.
pub proof fn lemma_round_error(m: nat, n: nat, d: nat)
    requires
        d > 0,
        n >= d * pow2(m) || d == 1,
    ensures
        pow2(m + 1) * (units(m, round_code(m, n, d)) * d) <= (pow2(m + 1) + 1) * n,
        (pow2(m + 1) - 1) * n <= pow2(m + 1) * (units(m, round_code(m, n, d)) * d),
{
    let k = lemma_binade(m, n, d);
    let c = round_code(m, n, d);
    let g = d * pow2(k);
    let q = nearest_even(n, g);
    lemma_pow2_pos(k);
    lemma_pow2_pos(m);
    lemma_pow2_unfold(m + 1);
    lemma_pow2_adds(m + 1, k);
    lemma_pow2_adds(m, k);
    lemma_round_code_at(m, n, d, k);
    assert(g > 0) by (nonlinear_arith)
        requires
            g == d * pow2(k),
            d > 0,
            pow2(k) > 0,
    ;
    assert(d * pow2(m + 1 + k) == pow2(m + 1) * g) by (nonlinear_arith)
        requires
            pow2(m + 1 + k) == pow2(m + 1) * pow2(k),
            g == d * pow2(k),
    ;
    assert(d * pow2(m + k) == pow2(m) * g) by (nonlinear_arith)
        requires
            pow2(m + k) == pow2(m) * pow2(k),
            g == d * pow2(k),
    ;
    assert(0 * g == 0);
    lemma_nearest_even_bounds(n, g, if k == 0 { 0 } else { pow2(m) }, pow2(m + 1));
    lemma_units_of_parts(m, k, q);
    let u = units(m, c);
    assert(u * d == q * g) by (nonlinear_arith)
        requires
            u == q * pow2(k),
            g == d * pow2(k),
    ;
    lemma_nearest_even_error(n, g);
    let h = pow2(m);
    if h * g <= n {
        assert((2 * h) * (q * g) <= (2 * h + 1) * n) by (nonlinear_arith)
            requires
                2 * (q * g) <= 2 * n + g,
                h * g <= n,
                h > 0,
        ;
        assert((2 * h - 1) * n <= (2 * h) * (q * g)) by (nonlinear_arith)
            requires
                2 * n <= 2 * (q * g) + g,
                h * g <= n,
                h > 0,
        ;
    } else {
        assert(pow2(0) == 1) by {
            vstd::arithmetic::power2::lemma2_to64();
        }
        assert(k == 0);
        if d == 1 {
            assert(g == 1);
            lemma_nearest_even_at(n, 1, n, 0);
            assert(q * g == n);
            assert((2 * h) * n <= (2 * h + 1) * n) by (nonlinear_arith);
            assert((2 * h - 1) * n <= (2 * h) * n) by (nonlinear_arith);
        } else {
            assert(d * pow2(m) == h * g) by (nonlinear_arith)
                requires
                    g == d * 1,
                    h == pow2(m),
            ;
        }
    }
}

/// Half-way comparison of a truncated significand: `n / (d * 2^k)` lies at
/// `sig / p` plus a fraction that the remainder and the truncated part decide.
#[verifier::rlimit(60)]
proof fn lemma_round_step(n: nat, s: nat, g: nat, e: nat, sig: nat, p: nat, q: nat, rem: nat)
    requires
        e > 0,
        s > 0,
        g * s == p * e,
        sig == q * p + rem,
        rem < p,
        sig * e <= n * s < (sig + 1) * e,
    ensures
        2 * (rem + 1) <= p ==> nearest_even(n, g) == q,
        2 * rem > p ==> nearest_even(n, g) == q + 1,
        2 * rem == p && sig * e < n * s ==> nearest_even(n, g) == q + 1,
        2 * rem == p && sig * e == n * s ==> nearest_even(n, g) == q + q % 2,
{
    let x = n * s - sig * e;
    assert((sig + 1) * e == sig * e + e) by (nonlinear_arith);
    assert(sig * e == (q * g) * s + rem * e) by (nonlinear_arith)
        requires
            sig == q * p + rem,
            g * s == p * e,
    ;
    let r = n - q * g;
    assert(r * s == rem * e + x) by (nonlinear_arith)
        requires
            r == n - q * g,
            n * s == (q * g) * s + rem * e + x,
    ;
    assert(rem * e >= 0) by (nonlinear_arith);
    assert(r >= 0) by (nonlinear_arith)
        requires
            r * s >= 0,
            s > 0,
    ;
    assert(rem * e + e <= p * e) by (nonlinear_arith)
        requires
            rem + 1 <= p,
    ;
    assert(r < g) by (nonlinear_arith)
        requires
            r * s < g * s,
            s > 0,
    ;
    lemma_nearest_even_at(n, g, q, r as nat);
    assert((2 * r) * s == 2 * (rem * e) + 2 * x) by (nonlinear_arith)
        requires
            r * s == rem * e + x,
    ;
    if 2 * (rem + 1) <= p {
        assert(2 * (rem * e) + 2 * e <= p * e) by (nonlinear_arith)
            requires
                2 * (rem + 1) <= p,
        ;
        assert(2 * r < g) by (nonlinear_arith)
            requires
                (2 * r) * s < g * s,
                s > 0,
        ;
    } else if 2 * rem > p {
        assert(2 * (rem * e) > p * e) by (nonlinear_arith)
            requires
                2 * rem > p,
                e > 0,
        ;
        assert(2 * r > g) by (nonlinear_arith)
            requires
                (2 * r) * s > g * s,
                s > 0,
        ;
    } else if 2 * rem == p {
        assert(2 * (rem * e) == p * e) by (nonlinear_arith)
            requires
                2 * rem == p,
        ;
        if x > 0 {
            assert(2 * r > g) by (nonlinear_arith)
                requires
                    (2 * r) * s > g * s,
                    s > 0,
            ;
        } else {
            assert(2 * r == g) by (nonlinear_arith)
                requires
                    (2 * r) * s == g * s,
                    s > 0,
            ;
        }
    }
}

/// `2^k`.
pub(crate) fn power_of_two(k: u32) -> (p: u128)
    requires
        k < 128,
    ensures
        p == pow2(k as nat),
{
    proof {
        vstd::arithmetic::power2::lemma2_to64();
    }
    let mut p: u128 = 1;
    let mut i: u32 = 0;
    while i < k
        invariant
            i <= k < 128,
            p == pow2(i as nat),
        decreases k - i,
    {
        proof {
            lemma_pow2_unfold((i + 1) as nat);
            lemma_pow2_127();
            if i < 126 {
                lemma_pow2_strictly_increases((i + 1) as nat, 127);
            }
        }
        p = 2 * p;
        i = i + 1;
    }
    p
}

proof fn lemma_pow2_127()
    ensures
        pow2(127) == 0x8000_0000_0000_0000_0000_0000_0000_0000nat,
{
    vstd::arithmetic::power2::lemma2_to64();
    vstd::arithmetic::power2::lemma2_to64_rest();
    lemma_pow2_adds(64, 63);
    assert(0x1_0000_0000_0000_0000nat * 0x8000_0000_0000_0000nat
        == 0x8000_0000_0000_0000_0000_0000_0000_0000nat) by (nonlinear_arith);
}

/// The number of bits that `x` takes, 0 for 0.
pub(crate) fn bit_length(x: u128) -> (len: u32)
    ensures
        len <= 128,
        x < pow2(len as nat),
        x > 0 ==> len > 0 && x >= pow2((len - 1) as nat),
        x == 0 ==> len == 0,
{
    proof {
        vstd::arithmetic::power2::lemma2_to64();
        lemma_pow2_127();
    }
    let mut len: u32 = 0;
    let mut p: u128 = 1;
    while len < 127 && x >= p
        invariant
            len <= 127,
            p == pow2(len as nat),
            x > 0 || len == 0,
            len > 0 ==> x >= pow2((len - 1) as nat),
            pow2(127) == 0x8000_0000_0000_0000_0000_0000_0000_0000nat,
        decreases 127 - len,
    {
        proof {
            lemma_pow2_pos(len as nat);
            lemma_pow2_unfold((len + 1) as nat);
            if len < 126 {
                lemma_pow2_strictly_increases((len + 1) as nat, 127);
            }
        }
        p = 2 * p;
        len = len + 1;
    }
    if x >= p {
        proof {
            lemma_pow2_unfold(128);
        }
        len = len + 1;
    }
    len
}

/// Rounds `n / d` units, given as a significand and its scale:
/// `n / d == (sig + f) * 2^e / 2^s` with `0 <= f < 1`, where `sticky` tells
/// whether `f` is positive. Codes stop at `top * 2^m`.
#[verifier::rlimit(60)]
pub(crate) fn round_significand(
    m: u32,
    top: u32,
    sig: u128,
    e: u32,
    s: u32,
    sticky: bool,
    Ghost(n): Ghost<nat>,
    Ghost(d): Ghost<nat>,
) -> (code: u64)
    requires
        m <= 52,
        top <= 2047,
        e <= 0x10000,
        s <= 0x10000,
        d > 0,
        sig < pow2(127),
        sig * (pow2(e as nat) * d) <= n * pow2(s as nat) < (sig + 1) * (pow2(e as nat) * d),
        sticky <==> sig * (pow2(e as nat) * d) < n * pow2(s as nat),
        sticky ==> sig >= pow2((m + 2) as nat),
    ensures
        code as nat == (if round_code(m as nat, n, d) < top * pow2(m as nat) {
            round_code(m as nat, n, d) as int
        } else {
            top * pow2(m as nat)
        }),
{
    let ghost (mm, ee, ss) = (m as nat, e as nat, s as nat);
    let ghost ed = pow2(ee) * d;
    proof {
        lemma_pow2_pos(ee);
        lemma_pow2_pos(ss);
        lemma_pow2_pos(mm);
        lemma_pow2_127();
        assert(ed > 0) by (nonlinear_arith)
            requires
                ed == pow2(ee) * d,
                pow2(ee) > 0,
                d > 0,
        ;
        assert((sig + 1) * ed == sig * ed + ed) by (nonlinear_arith);
    }
    let len = bit_length(sig);
    if sig == 0 {
        proof {
            lemma_pow2_pos((m + 2) as nat);
            assert(0 * ed == 0);
            assert(n == 0) by (nonlinear_arith)
                requires
                    n * pow2(ss) == 0,
                    pow2(ss) > 0,
            ;
            lemma_round_code_exact(mm, 0, d);
            assert(units(mm, 0) == 0);
            assert(0 * d == 0);
            assert(top * pow2(mm) >= 0);
        }
        return 0;
    }
    proof {
        if len == 128 {
            assert(pow2(127) <= sig);
        }
    }
    let k: u32 = if e + len > s + m + 1 {
        e + len - s - m - 1
    } else {
        0
    };
    let ghost kk = k as nat;
    let ghost g = d * pow2(kk);
    proof {
        lemma_pow2_pos(kk);
        lemma_pow2_adds(len as nat, ee);
        lemma_pow2_adds((len - 1) as nat, ee);
        lemma_pow2_adds(mm + 1 + kk, ss);
        lemma_pow2_adds(mm + kk, ss);
        if len as nat + ee < mm + 1 + kk + ss {
            lemma_pow2_strictly_increases(len as nat + ee, mm + 1 + kk + ss);
        }
        assert(n * pow2(ss) < d * (pow2(mm + 1 + kk) * pow2(ss))) by (nonlinear_arith)
            requires
                n * pow2(ss) < (sig + 1) * ed,
                sig + 1 <= pow2(len as nat),
                ed == pow2(ee) * d,
                pow2(len as nat) * pow2(ee) <= pow2(mm + 1 + kk) * pow2(ss),
        ;
        assert(n < d * pow2(mm + 1 + kk)) by (nonlinear_arith)
            requires
                n * pow2(ss) < d * (pow2(mm + 1 + kk) * pow2(ss)),
                pow2(ss) > 0,
        ;
        if k > 0 {
            assert((len - 1) as nat + ee == mm + kk + ss);
            assert(n * pow2(ss) >= d * (pow2(mm + kk) * pow2(ss))) by (nonlinear_arith)
                requires
                    n * pow2(ss) >= sig * ed,
                    sig >= pow2((len - 1) as nat),
                    ed == pow2(ee) * d,
                    pow2((len - 1) as nat) * pow2(ee) == pow2(mm + kk) * pow2(ss),
            ;
            assert(n >= d * pow2(mm + kk)) by (nonlinear_arith)
                requires
                    n * pow2(ss) >= d * (pow2(mm + kk) * pow2(ss)),
                    pow2(ss) > 0,
            ;
        }
        lemma_round_code_at(mm, n, d, kk);
        assert(g > 0) by (nonlinear_arith)
            requires
                g == d * pow2(kk),
                d > 0,
                pow2(kk) > 0,
        ;
        lemma_pow2_adds(mm + 1, kk);
        assert(pow2(mm + 1) * g == d * pow2(mm + 1 + kk)) by (nonlinear_arith)
            requires
                g == d * pow2(kk),
                pow2(mm + 1 + kk) == pow2(mm + 1) * pow2(kk),
        ;
        assert(0 * g == 0);
        lemma_nearest_even_bounds(n, g, 0, pow2(mm + 1));
        assert(g * pow2(ss) == d * (pow2(kk) * pow2(ss))) by (nonlinear_arith)
            requires
                g == d * pow2(kk),
        ;
        lemma_pow2_adds(kk, ss);
    }
    let unit = power_of_two(m);
    proof {
        vstd::arithmetic::power2::lemma2_to64();
        vstd::arithmetic::power2::lemma2_to64_rest();
        if m < 52 {
            lemma_pow2_strictly_increases(mm, 52);
        }
        assert(top * pow2(mm) <= 2047 * 0x10_0000_0000_0000) by (nonlinear_arith)
            requires
                top <= 2047,
                pow2(mm) <= 0x10_0000_0000_0000,
        ;
        assert(kk >= top ==> kk * pow2(mm) >= top * pow2(mm)) by (nonlinear_arith);
        assert(kk < top ==> kk * pow2(mm) <= top * pow2(mm)) by (nonlinear_arith);
        lemma_pow2_unfold(mm + 1);
    }
    let ceiling: u64 = top as u64 * unit as u64;
    if k >= top {
        return ceiling;
    }
    let mut q: u128;
    if e >= k + s {
        let t = e - k - s;
        proof {
            let tt = t as nat;
            assert(!sticky) by {
                if sticky {
                    if len < m + 3 {
                        if len < m + 2 {
                            lemma_pow2_strictly_increases(len as nat, mm + 2);
                        }
                    }
                }
            }
            lemma_pow2_adds(tt, kk + ss);
            assert(tt + (kk + ss) == ee);
            assert(n == (sig * pow2(tt)) * g) by (nonlinear_arith)
                requires
                    n * pow2(ss) == sig * ed,
                    ed == pow2(ee) * d,
                    pow2(ee) == pow2(tt) * (pow2(kk) * pow2(ss)),
                    g == d * pow2(kk),
                    pow2(ss) > 0,
            ;
            lemma_nearest_even_at(n, g, sig as nat * pow2(tt), 0);
            assert(pow2(tt) <= sig * pow2(tt)) by (nonlinear_arith)
                requires
                    sig >= 1,
            ;
            if tt >= mm + 2 {
                lemma_pow2_strictly_increases(mm + 1, tt);
            }
        }
        q = sig * power_of_two(t);
    } else {
        let shift = k + s - e;
        if shift > len {
            proof {
                assert(k == 0);
                lemma_pow2_adds(shift as nat, ee);
                lemma_pow2_unfold(shift as nat);
                if len < shift - 1 {
                    lemma_pow2_strictly_increases(len as nat, (shift - 1) as nat);
                }
                assert(g * pow2(ss) == pow2(shift as nat) * ed) by (nonlinear_arith)
                    requires
                        g * pow2(ss) == d * pow2(kk + ss),
                        pow2(kk + ss) == pow2(shift as nat) * pow2(ee),
                        ed == pow2(ee) * d,
                ;
                assert(sig as nat == 0 * pow2(shift as nat) + sig as nat);
                lemma_round_step(
                    n,
                    pow2(ss),
                    g,
                    ed,
                    sig as nat,
                    pow2(shift as nat),
                    0,
                    sig as nat,
                );
                assert(0 * pow2(mm) == 0);
                assert(top * pow2(mm) >= 0);
            }
            return 0;
        }
        let p = power_of_two(shift);
        proof {
            lemma_pow2_pos(shift as nat);
        }
        q = sig / p;
        let rem = sig % p;
        proof {
            lemma_pow2_adds(shift as nat, ee);
            lemma_fundamental_div_mod(sig as int, p as int);
            lemma_pow2_unfold(shift as nat);
            lemma_pow2_pos((shift - 1) as nat);
            assert(p * q == q * p) by (nonlinear_arith);
            assert(g * pow2(ss) == pow2(shift as nat) * ed) by (nonlinear_arith)
                requires
                    g * pow2(ss) == d * pow2(kk + ss),
                    pow2(kk + ss) == pow2(shift as nat) * pow2(ee),
                    ed == pow2(ee) * d,
            ;
            lemma_round_step(n, pow2(ss), g, ed, sig as nat, p as nat, q as nat, rem as nat);
        }
        let half = p / 2;
        if rem > half || (rem == half && (sticky || q % 2 == 1)) {
            proof {
                assert(q <= sig) by (nonlinear_arith)
                    requires
                        sig == p * q + rem,
                        p >= 1,
                ;
            }
            q = q + 1;
        }
    }
    let code: u64 = k as u64 * unit as u64 + q as u64;
    if code < ceiling {
        code
    } else {
        ceiling
    }
}

/// How far `c` times `d` lies from `n`.
pub open spec fn distance(c: nat, d: nat, n: nat) -> int {
    if c * d >= n {
        c * d - n
    } else {
        n - c * d
    }
}

/// Rounding gives the nearest value there is: no code stands for one that is
/// nearer, and if another one is as near, the code that is given is even.
#[verifier::rlimit(60)]
pub proof fn law_rounds_to_nearest(m: nat, n: nat, d: nat, code: nat)
    requires
        d > 0,
        m > 0,
    ensures
        distance(units(m, round_code(m, n, d)), d, n) <= distance(units(m, code), d, n),
        code != round_code(m, n, d) && distance(units(m, round_code(m, n, d)), d, n) == distance(
            units(m, code),
            d,
            n,
        ) ==> round_code(m, n, d) % 2 == 0,
    decreases n - d,
{
    let p = pow2(m);
    let top = pow2(m + 1);
    lemma_pow2_pos(m);
    lemma_pow2_unfold(m + 1);
    lemma_pow2_unfold(m);
    lemma_units_of_parts(m, 0, if code <= top { code } else { top });
    lemma_units_of_parts(m, 0, top);
    assert(pow2(0) == 1) by {
        vstd::arithmetic::power2::lemma2_to64();
    }
    assert(0 * p == 0);
    if n < d * top {
        let q = nearest_even(n, d);
        lemma_fundamental_div_mod(n as int, d as int);
        let (a, r) = (n / d, n % d);
        assert(a < top) by (nonlinear_arith)
            requires
                n == d * a + r,
                0 <= r,
                n < d * top,
                d > 0,
        ;
        lemma_units_of_parts(m, 0, q);
        assert(units(m, q) == q);
        let u = if code <= top {
            code
        } else {
            units(m, code)
        };
        assert(units(m, code) == u);
        if code > top {
            lemma_units_strict(m, top, code);
        }
        lemma_integer_distance(n, d, a, r, q, u);
    } else {
        lemma_double_below(m, n, d);
        let c = round_code(m, n, 2 * d);
        // Codes from `2^m` on stand for twice as much when they are one binade up.
        assert(c >= p) by {
            lemma_round_code_exact(m, p, 2 * d);
            lemma_units_of_parts(m, 0, p);
            assert(p * (2 * d) <= n) by (nonlinear_arith)
                requires
                    top == 2 * p,
                    n >= d * top,
            ;
            lemma_round_code_monotone(m, p * (2 * d), n, 2 * d);
        }
        lemma_binade_up(m, c);
        let rc = round_code(m, n, d);
        assert(rc == p + c);
        assert(units(m, rc) * d == units(m, c) * (2 * d)) by (nonlinear_arith)
            requires
                units(m, rc) == 2 * units(m, c),
        ;
        if code >= top {
            let k = (code - p) as nat;
            lemma_binade_up(m, k);
            law_rounds_to_nearest(m, n, 2 * d, k);
            assert(units(m, code) * d == units(m, k) * (2 * d)) by (nonlinear_arith)
                requires
                    units(m, code) == 2 * units(m, k),
            ;
        } else {
            // The first code of this binade lies between.
            law_rounds_to_nearest(m, n, 2 * d, p);
            lemma_units_of_parts(m, 0, p);
            assert(code * d < top * d && p * (2 * d) == top * d && top * d <= n) by (
            nonlinear_arith)
                requires
                    code < top,
                    top == 2 * p,
                    n >= d * top,
                    d > 0,
            ;
        }
        assert((p + c) % 2 == c % 2) by {
            assert(p == 2 * pow2((m - 1) as nat));
        }
    }
}

proof fn lemma_integer_distance(n: nat, d: nat, a: nat, r: nat, q: nat, u: nat)
    requires
        d > 0,
        n == d * a + r,
        r < d,
        q == (if 2 * r < d {
            a
        } else if 2 * r > d {
            a + 1
        } else {
            a + a % 2
        }),
    ensures
        distance(q, d, n) <= distance(u, d, n),
        u != q && distance(q, d, n) == distance(u, d, n) ==> q % 2 == 0,
{
    assert(a * d == n - r && (a + 1) * d == n - r + d) by (nonlinear_arith)
        requires
            n == d * a + r,
    ;
    if u < a {
        assert(u * d <= n - r - d) by (nonlinear_arith)
            requires
                u <= a - 1,
                a * d == n - r,
                d > 0,
        ;
    } else if u > a + 1 {
        assert(u * d >= n - r + 2 * d) by (nonlinear_arith)
            requires
                u >= a + 2,
                a * d == n - r,
                d > 0,
        ;
    }
}

proof fn lemma_binade_up(m: nat, c: nat)
    requires
        c >= pow2(m),
    ensures
        units(m, pow2(m) + c) == 2 * units(m, c),
{
    let p = pow2(m);
    lemma_pow2_pos(m);
    lemma_fundamental_div_mod(c as int, p as int);
    let (q, r) = (c / p, c % p);
    assert(p + c == (q + 1) * p + r) by (nonlinear_arith)
        requires
            c == p * q + r,
    ;
    lemma_fundamental_div_mod_converse((p + c) as int, p as int, (q + 1) as int, r as int);
    assert(q >= 1) by (nonlinear_arith)
        requires
            c == p * q + r,
            r < p,
            c >= p,
    ;
    lemma_pow2_unfold(q);
    assert((p + r) * (2 * pow2((q - 1) as nat)) == 2 * ((p + r) * pow2((q - 1) as nat))) by (
    nonlinear_arith);
}

} // verus!
