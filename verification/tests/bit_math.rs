use bitscan::bit_math::least_significant_bit;
use bitscan::bit_math::most_significant_bit;
use bitscan::error::BitMathError;
use bitscan::u256::U256;

fn from_u64(v: u64) -> U256 {
    U256::from_limbs([v, 0, 0, 0])
}

fn power_of_two(i: u32) -> U256 {
    let mut limbs = [0u64; 4];
    limbs[(i / 64) as usize] = 1u64 << (i % 64);
    U256::from_limbs(limbs)
}

fn all_ones() -> U256 {
    U256::from_limbs([u64::MAX, u64::MAX, u64::MAX, u64::MAX])
}

#[test]
fn test_most_significant_bit() {
    //0
    let result = most_significant_bit(U256::from_limbs([0, 0, 0, 0]));
    assert_eq!(
        result.unwrap_err().message(),
        "Can not get most significant bit or least significant bit on zero value"
    );

    //1
    let result = most_significant_bit(from_u64(1));
    assert_eq!(result.unwrap(), 0);

    //2
    let result = most_significant_bit(from_u64(2));
    assert_eq!(result.unwrap(), 1);

    //all powers of 2
    for i in 0..=255u32 {
        let result = most_significant_bit(power_of_two(i));
        assert_eq!(result.unwrap(), i as u8);
    }

    //uint256(-1)
    let result = most_significant_bit(all_ones());
    assert_eq!(result.unwrap(), 255);
}

#[test]
fn test_least_significant_bit() {
    //0
    let result = least_significant_bit(U256::from_limbs([0, 0, 0, 0]));
    assert_eq!(
        result.unwrap_err().message(),
        "Can not get most significant bit or least significant bit on zero value"
    );

    //1
    let result = least_significant_bit(from_u64(1));
    assert_eq!(result.unwrap(), 0);

    //2
    let result = least_significant_bit(from_u64(2));
    assert_eq!(result.unwrap(), 1);

    //all powers of 2
    for i in 0..=255u32 {
        let result = least_significant_bit(power_of_two(i));
        assert_eq!(result.unwrap(), i as u8);
    }

    //uint256(-1)
    let result = least_significant_bit(all_ones());
    assert_eq!(result.unwrap(), 0);
}

#[test]
fn test_zero_value_error_kind() {
    let zero = U256::from_limbs([0, 0, 0, 0]);
    assert!(matches!(most_significant_bit(zero), Err(BitMathError::ZeroValue)));
    assert!(matches!(least_significant_bit(zero), Err(BitMathError::ZeroValue)));
}

#[test]
fn test_three() {
    let three = from_u64(3);
    assert_eq!(most_significant_bit(three).unwrap(), 1);
    assert_eq!(least_significant_bit(three).unwrap(), 0);
}

#[test]
fn test_top_bit_only() {
    // 2^255: the full shift range, without overflow.
    let top = power_of_two(255);
    assert_eq!(most_significant_bit(top).unwrap(), 255);
    assert_eq!(least_significant_bit(top).unwrap(), 255);
}

#[test]
fn test_all_bits_below_top() {
    // 2^255 - 1: every bit set except the top one.
    let value = U256::from_limbs([u64::MAX, u64::MAX, u64::MAX, u64::MAX >> 1]);
    assert_eq!(most_significant_bit(value).unwrap(), 254);
    assert_eq!(least_significant_bit(value).unwrap(), 0);
}

#[test]
fn test_bits_spread_over_limbs() {
    // 2^130 + 2^7: the two scans land in different limbs.
    let value = U256::from_limbs([1 << 7, 0, 1 << 2, 0]);
    assert_eq!(most_significant_bit(value).unwrap(), 130);
    assert_eq!(least_significant_bit(value).unwrap(), 7);

    // 2^200 + 2^100.
    let value = U256::from_limbs([0, 1 << 36, 0, 1 << 8]);
    assert_eq!(most_significant_bit(value).unwrap(), 200);
    assert_eq!(least_significant_bit(value).unwrap(), 100);
}

#[test]
fn test_low_bit_never_above_high_bit() {
    // 12 = 0b1100: the two indices differ; 16 = 2^4: they coincide.
    let twelve = from_u64(12);
    assert_eq!(most_significant_bit(twelve).unwrap(), 3);
    assert_eq!(least_significant_bit(twelve).unwrap(), 2);

    let sixteen = from_u64(16);
    assert_eq!(most_significant_bit(sixteen).unwrap(), 4);
    assert_eq!(least_significant_bit(sixteen).unwrap(), 4);

    for limb in [1u64, 3, 12, 0x80, 0xb4, u64::MAX] {
        let value = U256::from_limbs([limb, 0, limb, 0]);
        let high = most_significant_bit(value).unwrap();
        let low = least_significant_bit(value).unwrap();
        assert!(low <= high);
    }
}
