use draco_utilities::number::magnitude::Magnitude;
use draco_utilities::number::whole::Whole;
use draco_utilities::rng::Rng;

/// The number, where it is below 2^128.
fn small(mut whole: Whole) -> Option<u128> {
    let mut number: u128 = 0;
    let mut place: u32 = 0;
    while !whole.is_zero() {
        let digit = whole.div_small(16) as u128;
        if place >= 32 {
            return None;
        }
        number |= digit << (4 * place);
        place += 1;
    }
    Some(number)
}

/// The bit pattern of a finite, non-negative number: small, large or subnormal by turns.
fn sample(rng: &mut Rng, round: u32) -> u64 {
    let bits = rng.gen_u64();
    match round % 4 {
        0 => bits % 0x3ff0_0000_0000_0000,
        1 => bits % 0x7ff0_0000_0000_0000,
        2 => bits % 0x0010_0000_0000_0000,
        _ => 0x3fe0_0000_0000_0000 + bits % 0x0020_0000_0000_0000,
    }
}

#[test]
fn bits_round_trip() {
    let mut rng = Rng::with_seed(1);
    for round in 0..20_000 {
        let bits = sample(&mut rng, round);
        assert_eq!(Magnitude::from_bits(bits).to_bits(), bits);
    }
}

#[test]
fn times_is_float_multiplication() {
    let mut rng = Rng::with_seed(2);
    for round in 0..40_000 {
        let bits = sample(&mut rng, round) % 0x4050_0000_0000_0000;
        let factor = 2 + (rng.gen_u32() % 35) as u8;
        let expected = f64::from_bits(bits) * factor as f64;
        let product = Magnitude::from_bits(bits).times(factor);
        assert_eq!(product.to_bits(), expected.to_bits(), "{bits:#x} * {factor}");
    }
}

#[test]
fn times_one_tenth_by_three() {
    let product = Magnitude::from_bits(0.1f64.to_bits()).times(3);
    assert_eq!(f64::from_bits(product.to_bits()), 0.30000000000000004);
}

#[test]
fn times_rounds_ties_to_even() {
    // 2^53 + 1 is a tie between 2^53 and 2^53 + 2.
    let odd = f64::from_bits(0x3ff0_0000_0000_0001);
    let product = Magnitude::from_bits(odd.to_bits()).times(3);
    assert_eq!(product.to_bits(), (odd * 3.0).to_bits());
    let next = f64::from_bits(0x3ff0_0000_0000_0003);
    let product = Magnitude::from_bits(next.to_bits()).times(3);
    assert_eq!(product.to_bits(), (next * 3.0).to_bits());
}

#[test]
fn times_leaves_the_subnormal_range() {
    let product = Magnitude::from_bits(0x000f_ffff_ffff_ffff).times(36);
    let expected = f64::from_bits(0x000f_ffff_ffff_ffff) * 36.0;
    assert_eq!(product.to_bits(), expected.to_bits());
}

#[test]
fn split_is_floor_and_fract() {
    let mut rng = Rng::with_seed(3);
    for round in 0..40_000 {
        let bits = sample(&mut rng, round);
        let value = f64::from_bits(bits);
        let (whole, fraction) = Magnitude::from_bits(bits).split();
        if value < 2f64.powi(128) {
            assert_eq!(small(whole), Some(value.floor() as u128), "{bits:#x}");
        } else {
            assert_eq!(small(whole), None, "{bits:#x}");
        }
        assert_eq!(fraction.to_bits(), value.fract().to_bits(), "{bits:#x}");
    }
}

#[test]
fn split_a_large_number() {
    let (mut whole, fraction) = Magnitude::from_bits(f64::MAX.to_bits()).split();
    assert_eq!(fraction.to_bits(), 0);
    // 53 ones and 971 zeros.
    let mut bits = Vec::new();
    while !whole.is_zero() {
        bits.push(whole.div_small(2));
    }
    assert_eq!(bits.len(), 1024);
    assert!(bits[..971].iter().all(|&bit| bit == 0));
    assert!(bits[971..].iter().all(|&bit| bit == 1));
    let (whole, _) = Magnitude::from_bits(2f64.powi(128).to_bits()).split();
    assert_eq!(small(whole), None);
    let (whole, _) = Magnitude::from_bits(2f64.powi(127).to_bits()).split();
    assert_eq!(small(whole), Some(1 << 127));
}

#[test]
fn split_ninety_point_twelve() {
    let (whole, fraction) = Magnitude::from_bits(90.12f64.to_bits()).split();
    assert_eq!(whole.low(), 90);
    assert_eq!(small(whole), Some(90));
    assert_eq!(f64::from_bits(fraction.to_bits()), 90.12f64.fract());
}

#[test]
fn half_ulp_is_half_the_gap() {
    let mut rng = Rng::with_seed(4);
    for round in 0..40_000 {
        let bits = sample(&mut rng, round) % 0x7fef_ffff_ffff_ffff;
        let value = f64::from_bits(bits);
        let next = f64::from_bits(bits + 1);
        let expected = (0.5 * (next - value)).max(5e-324);
        let delta = Magnitude::from_bits(bits).half_ulp();
        assert_eq!(delta.to_bits(), expected.to_bits(), "{bits:#x}");
    }
}

#[test]
fn half_ulp_of_one() {
    let delta = Magnitude::from_bits(1f64.to_bits()).half_ulp();
    assert_eq!(f64::from_bits(delta.to_bits()), 2f64.powi(-53));
}

#[test]
fn half_ulp_is_never_zero() {
    for bits in [0u64, 1, 0x000f_ffff_ffff_ffff, 0x0010_0000_0000_0000] {
        let delta = Magnitude::from_bits(bits).half_ulp();
        assert_eq!(delta.to_bits(), 1);
    }
}

#[test]
fn order_is_float_order() {
    let mut rng = Rng::with_seed(5);
    for round in 0..40_000 {
        let a = sample(&mut rng, round);
        let b = if round % 7 == 0 { a } else { sample(&mut rng, round + 1) };
        let left = Magnitude::from_bits(a);
        let right = Magnitude::from_bits(b);
        assert_eq!(left.less_than(&right), f64::from_bits(a) < f64::from_bits(b));
        assert_eq!(left.equals(&right), f64::from_bits(a) == f64::from_bits(b));
    }
}

#[test]
fn sum_exceeds_one_is_float_addition() {
    let mut rng = Rng::with_seed(6);
    for round in 0..60_000u32 {
        let f = match round % 4 {
            // From one half up to one.
            0 | 1 => 0x3fe0_0000_0000_0000 + rng.gen_u64() % 0x0010_0000_0000_0000,
            // From one quarter up to four.
            2 => 0x3fd0_0000_0000_0000 + rng.gen_u64() % 0x0040_0000_0000_0000,
            _ => sample(&mut rng, round),
        };
        let d = match round % 3 {
            0 => sample(&mut rng, round) % 0x4050_0000_0000_0000,
            // Close to what is missing to one.
            1 => ((1.0 - f64::from_bits(f)).abs().to_bits() + rng.gen_u64() % 5)
                .saturating_sub(2)
                .min(0x7fef_ffff_ffff_ffff),
            _ => 0x3ca0_0000_0000_0000 + rng.gen_u64() % 0x0030_0000_0000_0000,
        };
        let expected = f64::from_bits(f) + f64::from_bits(d) > 1.0;
        let fraction = Magnitude::from_bits(f);
        let delta = Magnitude::from_bits(d);
        assert_eq!(fraction.sum_exceeds_one(&delta), expected, "{f:#x} + {d:#x}");
        assert_eq!(delta.sum_exceeds_one(&fraction), expected, "{d:#x} + {f:#x}");
    }
}

#[test]
fn sums_around_one() {
    let one = Magnitude::from_bits(1f64.to_bits());
    let zero = Magnitude::zero();
    let least = Magnitude::from_bits(1);
    let half = Magnitude::half();
    let above = Magnitude::from_bits(1f64.to_bits() + 1);
    let largest = Magnitude::from_bits(f64::MAX.to_bits());
    assert!(!one.sum_exceeds_one(&zero));
    assert!(!one.sum_exceeds_one(&least));
    assert!(!half.sum_exceeds_one(&half));
    assert!(!zero.sum_exceeds_one(&zero));
    assert!(above.sum_exceeds_one(&zero));
    assert!(one.sum_exceeds_one(&half));
    assert!(largest.sum_exceeds_one(&largest));
    // 1 + 2^-53 is a tie that goes to one; anything more goes up.
    assert!(!one.sum_exceeds_one(&Magnitude::from_bits(2f64.powi(-53).to_bits())));
    assert!(one.sum_exceeds_one(&Magnitude::from_bits(2f64.powi(-53).to_bits() + 1)));
}

#[test]
fn sum_with_half_an_ulp_is_a_tie() {
    // 1 - 2^-53 is the largest number below one; adding 2^-53 gives one exactly, and adding
    // 2^-52 gives 1 + 2^-53, which is rounded to one, the even neighbour.
    let fraction = Magnitude::from_bits((1.0 - 2f64.powi(-53)).to_bits());
    assert!(!fraction.sum_exceeds_one(&Magnitude::from_bits(2f64.powi(-53).to_bits())));
    assert!(!fraction.sum_exceeds_one(&Magnitude::from_bits(2f64.powi(-52).to_bits())));
    assert!(fraction.sum_exceeds_one(&Magnitude::from_bits(2f64.powi(-51).to_bits())));
}

#[test]
fn half_and_zero() {
    assert_eq!(f64::from_bits(Magnitude::half().to_bits()), 0.5);
    assert_eq!(Magnitude::zero().to_bits(), 0);
}

#[test]
fn mantissa_and_scale() {
    let one = Magnitude::from_bits(1f64.to_bits());
    assert_eq!(one.mantissa(), 1 << 52);
    assert_eq!(one.scale(), 1022);
    let least = Magnitude::from_bits(1);
    assert_eq!(least.mantissa(), 1);
    assert_eq!(least.scale(), 0);
}

#[test]
fn times_zero_and_the_largest_factor() {
    let third = Magnitude::from_bits((1.0f64 / 3.0).to_bits());
    assert_eq!(third.times(0).to_bits(), 0);
    assert_eq!(third.times(1).to_bits(), (1.0f64 / 3.0).to_bits());
    assert_eq!(third.times(255).to_bits(), (1.0f64 / 3.0 * 255.0).to_bits());
    assert_eq!(Magnitude::zero().times(36).to_bits(), 0);
}
