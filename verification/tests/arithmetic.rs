use bevy_worker::arithmetic::NAN;
use bevy_worker::single::Single;

fn single(x: f32) -> Single {
    Single::from_bits(x.to_bits())
}

/// The same number, or both none.
fn same(found: Single, expected: f32) -> bool {
    if expected.is_nan() {
        found.to_bits() == NAN
    } else {
        found.to_bits() == expected.to_bits()
    }
}

fn agrees(a: f32, b: f32) -> bool {
    same(single(a).plus(single(b)), a + b)
        && same(single(a).minus(single(b)), a - b)
        && same(single(a).times(single(b)), a * b)
        && same(single(a).over(single(b)), a / b)
}

fn next(state: &mut u64) -> u32 {
    *state = state
        .wrapping_mul(6364136223846793005)
        .wrapping_add(1442695040888963407);
    (*state >> 32) as u32
}

fn edges() -> Vec<f32> {
    let mut all = Vec::new();
    for exponent in [0, 1, 2, 23, 24, 25, 103, 126, 127, 128, 150, 151, 252, 253, 254, 255] {
        for fraction in [0, 1, 2, 3, 0x3f_ffff, 0x40_0000, 0x40_0001, 0x7f_fffe, 0x7f_ffff] {
            let bits: u32 = exponent * 0x80_0000 + fraction;
            all.push(f32::from_bits(bits));
            all.push(-f32::from_bits(bits));
        }
    }
    all
}

#[test]
fn operations_on_edges_are_those_of_the_machine() {
    for a in edges() {
        for b in edges() {
            assert!(agrees(a, b), "{:?} and {:?}", a, b);
        }
    }
}

#[test]
fn operations_on_any_bits_are_those_of_the_machine() {
    let mut state = 1;
    for _ in 0..200000 {
        let a = f32::from_bits(next(&mut state));
        let b = f32::from_bits(next(&mut state));
        assert!(agrees(a, b), "{:?} and {:?}", a, b);
    }
}

#[test]
fn operations_on_close_exponents_are_those_of_the_machine() {
    let mut state = 2;
    for _ in 0..200000 {
        let bits = next(&mut state) % 0x8000_0000;
        let a = f32::from_bits(bits);
        let offset = (next(&mut state) % 80) * 0x80_0000;
        let fraction = next(&mut state) % 0x80_0000;
        let b = f32::from_bits((bits.saturating_sub(offset) & !0x7f_ffff) + fraction);
        assert!(agrees(a, b), "{:?} and {:?}", a, b);
        assert!(agrees(a, -b), "{:?} and {:?}", a, -b);
        assert!(agrees(b, -a), "{:?} and {:?}", b, -a);
    }
}

#[test]
fn counts_are_rounded_to_nearest() {
    for n in [0, 1, 2, 3, 0xff_ffff, 0x100_0000, 0x100_0001, 0x100_0003, u32::MAX] {
        assert_eq!(Single::from_count(n).to_bits(), (n as f32).to_bits());
    }
    let mut state = 3;
    for _ in 0..10000 {
        let n = next(&mut state);
        assert_eq!(Single::from_count(n).to_bits(), (n as f32).to_bits());
    }
}

#[test]
fn sums_round_to_nearest_even() {
    assert!(same(single(16777216.0).plus(single(1.0)), 16777216.0));
    assert!(same(single(16777218.0).plus(single(1.0)), 16777220.0));
    assert!(same(single(0.1).plus(single(0.2)), 0.3));
}

#[test]
fn sums_of_zeros_keep_a_common_sign() {
    assert!(same(single(-0.0).plus(single(-0.0)), -0.0));
    assert!(same(single(-0.0).plus(single(0.0)), 0.0));
    assert!(same(single(1.5).minus(single(1.5)), 0.0));
}

#[test]
fn large_results_are_infinite() {
    assert!(same(single(f32::MAX).plus(single(f32::MAX)), f32::INFINITY));
    assert!(same(single(f32::MIN).times(single(2.0)), f32::NEG_INFINITY));
    assert!(same(single(-1.0).over(single(0.0)), f32::NEG_INFINITY));
}

#[test]
fn small_results_are_subnormal_or_zero() {
    assert!(same(single(f32::MIN_POSITIVE).over(single(3.0)), f32::MIN_POSITIVE / 3.0));
    assert!(same(single(1e-45).times(single(0.5)), 0.0));
    assert!(same(single(-1e-45).times(single(0.75)), -1e-45));
}

#[test]
fn results_that_are_no_number() {
    assert_eq!(single(f32::INFINITY).minus(single(f32::INFINITY)).to_bits(), NAN);
    assert_eq!(single(0.0).times(single(f32::INFINITY)).to_bits(), NAN);
    assert_eq!(single(0.0).over(single(-0.0)).to_bits(), NAN);
    assert_eq!(single(f32::INFINITY).over(single(f32::NEG_INFINITY)).to_bits(), NAN);
    assert_eq!(single(f32::NAN).plus(single(1.0)).to_bits(), NAN);
}

fn number(x: Single) -> f32 {
    f32::from_bits(x.to_bits())
}

#[test]
fn results_are_within_one_part_in_two_to_the_24() {
    let part = 1.0 / 16777216.0;
    let values = [0.1f32, -0.7, 3.3, 12345.678, -1e-6, 7e20, 0.3333];
    for a in values {
        for b in values {
            let (x, y) = (a as f64, b as f64);
            for (found, exact) in [
                (single(a).plus(single(b)), x + y),
                (single(a).minus(single(b)), x - y),
                (single(a).times(single(b)), x * y),
                (single(a).over(single(b)), x / y),
            ] {
                let found = number(found) as f64;
                assert!((found - exact).abs() <= found.abs() * part);
            }
        }
    }
}

#[test]
fn signs_do_not_change_magnitudes() {
    let values = [0.1f32, 0.7, 3.3, 1e-6, 7e20, 0.0];
    for a in values {
        for b in values {
            let (x, y) = (single(a), single(b));
            assert_eq!(number(x.neg().plus(y.neg())), -number(x.plus(y)));
            assert_eq!(number(x.neg().times(y)), -number(x.times(y)));
            assert_eq!(number(x.neg().times(y.neg())), number(x.times(y)));
            assert_eq!(x.times(y), y.times(x));
            if b != 0.0 {
                assert_eq!(number(x.over(y.neg())), -number(x.over(y)));
            }
        }
    }
}

#[test]
fn powers_of_two_change_exponents_alone() {
    let scaled = |x: Single, power: u32| Single::from_bits(x.to_bits() + power * 0x80_0000);
    for a in [0.1f32, -0.7, 3.3, 12345.678] {
        for b in [0.3f32, -1.7, 9.1] {
            let (x, y) = (single(a), single(b));
            assert_eq!(number(scaled(x, 5)), 32.0 * a);
            assert_eq!(x.times(scaled(y, 5)), scaled(x.times(y), 5));
            assert_eq!(x.over(y), scaled(x.over(scaled(y, 5)), 5));
            assert_eq!(x.times(scaled(y, 5)), scaled(x, 5).times(y));
        }
    }
}

#[test]
fn small_terms_do_not_overflow() {
    assert_eq!(number(single(0.25).plus(single(f32::MAX))), f32::MAX);
    assert_eq!(number(single(1e31).plus(single(f32::MAX))), f32::MAX);
    assert_eq!(number(single(-0.25).plus(single(-f32::MAX))), -f32::MAX);
}

#[test]
fn small_counts_are_exact() {
    for n in [0, 1, 3, 0xff_ffff, 0x100_0000] {
        assert_eq!(number(Single::from_count(n)) as f64, n as f64);
    }
    assert_eq!(number(Single::from_count(0x100_0001)), 16777216.0);
    assert_eq!(number(Single::from_count(u32::MAX)), 4294967296.0);
}

#[test]
fn whole_parts_are_those_of_the_machine() {
    for a in edges() {
        assert_eq!(single(a).to_count(), a as u32);
    }
    let mut state = 7;
    for _ in 0..100000 {
        let a = f32::from_bits(next(&mut state));
        assert_eq!(single(a).to_count(), a as u32);
    }
    for a in [0.999f32, 1.0, 1.5, 255.75, 8388607.5, 16777215.0, 4294967040.0, 4294967296.0, -1.5] {
        assert_eq!(single(a).to_count(), a as u32);
    }
}
