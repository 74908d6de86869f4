use combined_fields::binary::{Binary32, Binary64};
use combined_fields::bounds::{score_sum_cannot_compete, score_sum_upper_bound_factor};

fn b(x: f32) -> Binary32 {
    Binary32::from_bits(x.to_bits())
}

fn d(x: f64) -> Binary64 {
    Binary64::from_bits(x.to_bits())
}

/// The bits of a number; every not-a-number counts as one.
fn same32(ours: Binary32, native: f32) -> bool {
    if native.is_nan() {
        ours.is_nan()
    } else {
        ours.to_bits() == native.to_bits()
    }
}

fn same64(ours: Binary64, native: f64) -> bool {
    if native.is_nan() {
        f64::from_bits(ours.to_bits()).is_nan()
    } else {
        ours.to_bits() == native.to_bits()
    }
}

struct Walk(u64);

impl Walk {
    fn next(&mut self) -> u64 {
        self.0 ^= self.0 << 13;
        self.0 ^= self.0 >> 7;
        self.0 ^= self.0 << 17;
        self.0
    }
}

fn samples32() -> Vec<f32> {
    let mut walk = Walk(0x9E37_79B9_7F4A_7C15);
    let mut all = vec![
        0.0,
        -0.0,
        1.0,
        -1.0,
        1.5,
        f32::MIN_POSITIVE,
        f32::MAX,
        -f32::MAX,
        f32::INFINITY,
        f32::NEG_INFINITY,
        f32::NAN,
        f32::EPSILON,
        16777216.0,
        16777215.0,
        0.1,
    ];
    all.push(f32::from_bits(1));
    all.push(f32::from_bits(0x007f_ffff));
    for _ in 0..120 {
        all.push(f32::from_bits(walk.next() as u32));
    }
    for _ in 0..60 {
        // Values close to each other in magnitude.
        let exponent = 120 + (walk.next() % 16) as u32;
        all.push(f32::from_bits((exponent << 23) | (walk.next() as u32 & 0x807f_ffff)));
    }
    all
}

#[test]
fn single_arithmetic_is_native() {
    let all = samples32();
    for x in &all {
        for y in &all {
            let (x, y) = (*x, *y);
            assert!(same32(b(x).add(b(y)), x + y), "{x:e} + {y:e}");
            assert!(same32(b(x).mul(b(y)), x * y), "{x:e} * {y:e}");
            assert!(same32(b(x).div(b(y)), x / y), "{x:e} / {y:e}");
            assert_eq!(b(x).lt(b(y)), x < y, "{x:e} < {y:e}");
            assert_eq!(b(x).le(b(y)), x <= y, "{x:e} <= {y:e}");
        }
        assert!(same64(b(*x).widen(), f64::from(*x)), "widening {x:e}");
    }
}

#[test]
fn double_arithmetic_is_native() {
    let mut walk = Walk(0x0123_4567_89ab_cdef);
    let mut all = vec![
        0.0,
        -0.0,
        1.0,
        f64::MIN_POSITIVE,
        f64::MAX,
        f64::INFINITY,
        f64::NEG_INFINITY,
        f64::NAN,
        9007199254740992.0,
        0.1,
    ];
    all.push(f64::from_bits(1));
    for _ in 0..80 {
        all.push(f64::from_bits(walk.next()));
    }
    for _ in 0..80 {
        let exponent = 1000 + walk.next() % 70;
        all.push(f64::from_bits((exponent << 52) | (walk.next() & 0x800f_ffff_ffff_ffff)));
    }
    for x in &all {
        for y in &all {
            let (x, y) = (*x, *y);
            assert!(same64(d(x).add(d(y)), x + y), "{x:e} + {y:e}");
            assert!(same64(d(x).mul(d(y)), x * y), "{x:e} * {y:e}");
            assert_eq!(d(x).le(d(y)), x <= y, "{x:e} <= {y:e}");
        }
    }
}

#[test]
fn counts_convert_like_native() {
    let mut walk = Walk(77);
    for count in [0u32, 1, 2, 3, 16777215, 16777216, 16777217, 16777219, u32::MAX] {
        assert_eq!(Binary32::from_count(count).to_bits(), (count as f32).to_bits());
    }
    for _ in 0..2000 {
        let count = walk.next() as u32;
        assert_eq!(Binary32::from_count(count).to_bits(), (count as f32).to_bits());
    }
}

#[test]
fn widening_factor_values() {
    let factor = |n: usize| f64::from_bits(score_sum_upper_bound_factor(n).to_bits());
    assert_eq!(factor(0), 1.0);
    assert_eq!(factor(1), 1.0 + 1.0 / 4194304.0);
    assert_eq!(factor(3), 1.0 + 3.0 / 4194304.0);
    assert_eq!(factor(0x10_0000), 1.25);
    assert_eq!(factor(0x10_0001), f64::INFINITY);
}

#[test]
fn competing_sums() {
    let factor = score_sum_upper_bound_factor(2);
    assert!(score_sum_cannot_compete(b(1.0), d(1.0), b(2.5), factor));
    assert!(!score_sum_cannot_compete(b(1.0), d(1.5), b(2.5), factor));
    assert!(!score_sum_cannot_compete(b(1.0), d(2.0), b(2.5), factor));
    assert!(!score_sum_cannot_compete(b(0.0), d(0.0), b(f32::NEG_INFINITY), factor));
    assert!(!score_sum_cannot_compete(b(f32::NAN), d(0.0), b(2.5), factor));
    assert!(!score_sum_cannot_compete(b(0.0), d(0.0), b(f32::NAN), factor));
    assert!(score_sum_cannot_compete(b(0.0), d(0.0), b(0.0), factor));
    // With a factor of one, level is not enough to compete.
    assert!(score_sum_cannot_compete(b(1.0), d(1.5), b(2.5), score_sum_upper_bound_factor(0)));
    // A negative sum is moved down.
    let below = f32::from_bits((-1.0f32).to_bits() + 1);
    assert!(score_sum_cannot_compete(b(-1.0), d(0.0), b(below), score_sum_upper_bound_factor(1)));
    assert!(!score_sum_cannot_compete(b(-1.0), d(0.0), b(-1.1), score_sum_upper_bound_factor(1)));
    // Too many terms: nothing can be ruled out by a finite floor.
    let infinite = score_sum_upper_bound_factor(0x10_0001);
    assert!(!score_sum_cannot_compete(b(1.0), d(1.0), b(f32::MAX), infinite));
}

#[test]
fn bound_dominates_sums_in_any_order() {
    let mut walk = Walk(4242);
    for _ in 0..300 {
        let n = 2 + (walk.next() % 12) as usize;
        let scores: Vec<f32> = (0..n).map(|_| (walk.next() % 100_000) as f32 / 7919.0).collect();
        let mut reversed = Binary32::zero();
        for x in scores.iter().rev() {
            reversed = reversed.add(b(*x));
        }
        let forward: f32 = scores.iter().fold(0.0f32, |sum, x| sum + x);
        let factor = score_sum_upper_bound_factor(n);
        // Whatever floor the reversed sum cannot beat, the forward sum does not exceed.
        for floor in [forward, f32::from_bits(forward.to_bits() - 1)] {
            if score_sum_cannot_compete(reversed, Binary64::zero(), b(floor), factor) {
                assert!(forward <= floor);
            }
        }
    }
}
