use draco_utilities::number::whole::{Whole, WHOLE_LIMBS};
use draco_utilities::rng::Rng;

/// The digits of the number in the radix, the last digit first.
fn digits(mut whole: Whole, radix: u8) -> Vec<u8> {
    let mut digits = Vec::new();
    while !whole.is_zero() {
        digits.push(whole.div_small(radix));
    }
    digits
}

fn digits_of(mut number: u128, radix: u8) -> Vec<u8> {
    let mut digits = Vec::new();
    while number != 0 {
        digits.push((number % radix as u128) as u8);
        number /= radix as u128;
    }
    digits
}

#[test]
fn sixteen_limbs() {
    assert_eq!(WHOLE_LIMBS, 16);
}

#[test]
fn zero_is_zero() {
    let mut zero = Whole::from_shifted(0, 0);
    assert!(zero.is_zero());
    assert_eq!(zero.low(), 0);
    assert_eq!(zero.div_small(10), 0);
    assert!(zero.is_zero());
    assert!(Whole::from_shifted(0, 971).is_zero());
    assert!(!Whole::from_shifted(1, 0).is_zero());
    assert!(!Whole::from_shifted(1, 971).is_zero());
}

#[test]
fn a_small_number() {
    let mut whole = Whole::from_shifted(2021, 0);
    assert_eq!(whole.low(), 2021);
    assert_eq!(whole.div_small(16), 5);
    assert_eq!(whole.low(), 126);
    assert_eq!(whole.div_small(16), 14);
    assert_eq!(whole.div_small(16), 7);
    assert!(whole.is_zero());
}

#[test]
fn division_is_that_of_the_number() {
    let mut rng = Rng::with_seed(31);
    for _ in 0..3_000 {
        let mantissa = rng.gen_u64() >> 11;
        let shift = rng.gen_u32() % 76;
        let radix = 1 + (rng.gen_u32() % 255) as u8;
        let number = (mantissa as u128) << shift;
        let mut whole = Whole::from_shifted(mantissa, shift);
        assert_eq!(whole.low(), number as u64);
        let rest = whole.div_small(radix);
        assert_eq!(rest as u128, number % radix as u128);
        assert_eq!(whole.low(), (number / radix as u128) as u64);
        if radix > 1 {
            assert_eq!(digits(Whole::from_shifted(mantissa, shift), radix), digits_of(number, radix));
        }
    }
}

#[test]
fn a_power_of_two_in_radix_two() {
    for shift in [0u32, 1, 63, 64, 65, 127, 128, 500, 960, 971] {
        let mut expected = vec![0u8; shift as usize];
        expected.push(1);
        assert_eq!(digits(Whole::from_shifted(1, shift), 2), expected);
    }
}

#[test]
fn the_largest_mantissa_at_the_largest_shift() {
    let bits = digits(Whole::from_shifted((1 << 53) - 1, 971), 2);
    assert_eq!(bits.len(), 1024);
    assert!(bits[..971].iter().all(|&bit| bit == 0));
    assert!(bits[971..].iter().all(|&bit| bit == 1));
}

#[test]
fn a_mantissa_across_two_limbs() {
    // 0x1f_ffff_ffff_ffff * 2^40 has bits in the limbs 0 and 1.
    let hex = digits(Whole::from_shifted((1 << 53) - 1, 40), 16);
    let mut expected = vec![0u8; 10];
    expected.extend([15u8; 13]);
    expected.push(1);
    assert_eq!(hex, expected);
}

#[test]
fn adding_one() {
    let mut whole = Whole::from_shifted(41, 0);
    whole.add_one();
    assert_eq!(whole.low(), 42);
    let mut zero = Whole::from_shifted(0, 0);
    zero.add_one();
    assert_eq!(zero.low(), 1);
    assert!(!zero.is_zero());
}

#[test]
fn adding_one_carries_into_the_next_limb() {
    // 2^64 - 2^11, and 2^11 times one more.
    let mut whole = Whole::from_shifted((1 << 53) - 1, 11);
    assert_eq!(whole.low(), u64::MAX - 0x7ff);
    for _ in 0..0x7ff {
        whole.add_one();
    }
    assert_eq!(whole.low(), u64::MAX);
    whole.add_one();
    assert_eq!(whole.low(), 0);
    assert!(!whole.is_zero());
    let mut expected = vec![0u8; 64];
    expected.push(1);
    assert_eq!(digits(whole, 2), expected);
}
