use tans::key::Key;

fn key_of(value: u128) -> Key {
    let high = (value >> 64) as u64;
    let low = value as u64;
    Key::from_u64(high).mul_add(u64::MAX, high).mul_add(1, low)
}

#[test]
fn zero_is_the_root() {
    let zero = Key::zero();
    assert!(zero.is_zero());
    assert_eq!(zero.to_u64(), Some(0));
    assert_eq!(zero.limbs(), Vec::<u64>::new());
    assert_eq!(zero, Key::from_u64(0));
    assert_eq!(zero, Key::default());
    assert_eq!(zero.to_decimal(), "0");
}

#[test]
fn small_keys_are_machine_words() {
    let key = Key::from_u64(248);
    assert!(!key.is_zero());
    assert_eq!(key.to_u64(), Some(248));
    assert_eq!(key.limbs(), vec![248]);
    assert_eq!(key.to_decimal(), "248");
    assert_eq!(Key::from_u64(u64::MAX).to_u64(), Some(u64::MAX));
    assert_eq!(Key::from_u64(u64::MAX).to_decimal(), "18446744073709551615");
}

#[test]
fn keys_compare_by_value() {
    assert_eq!(Key::from_u64(7), Key::from_u64(7));
    assert_ne!(Key::from_u64(7), Key::from_u64(8));
    assert_ne!(Key::from_u64(7), Key::from_u64(u64::MAX).mul_add(2, 7));
    assert_eq!(Key::from_u64(7).clone(), Key::from_u64(7));
}

#[test]
fn mul_add_carries_into_a_new_limb() {
    let key = Key::from_u64(u64::MAX).mul_add(u64::MAX, u64::MAX);
    // (2^64 - 1)^2 + 2^64 - 1 = 2^128 - 2^64
    assert_eq!(key.limbs(), vec![0, u64::MAX]);
    assert_eq!(key.to_u64(), None);
    assert_eq!(key.to_decimal(), "340282366920938463444927863358058659840");
    let value: u128 = (u64::MAX as u128) * (u64::MAX as u128) + (u64::MAX as u128);
    assert_eq!(key.to_decimal(), value.to_string());
    assert_eq!(key, key_of(value));
}

#[test]
fn mul_add_by_zero_keeps_the_addend() {
    let key = Key::from_u64(u64::MAX).mul_add(u64::MAX, 5);
    assert_eq!(key.mul_add(0, 9), Key::from_u64(9));
    assert_eq!(key.mul_add(0, 0), Key::zero());
    assert_eq!(Key::zero().mul_add(12, 0), Key::zero());
    assert_eq!(Key::zero().mul_add(12, 3), Key::from_u64(3));
}

#[test]
fn mul_add_matches_wide_arithmetic() {
    let values: [u128; 5] = [0, 1, 0xffff_ffff, 0x1_0000_0000_0000_0000, 0x1234_5678_9abc_def0_1122_3344];
    let factors: [u64; 4] = [1, 3, 1000, 0xffff_ffff];
    for value in values {
        for factor in factors {
            let expected = value * (factor as u128) + 17;
            assert_eq!(key_of(value).mul_add(factor, 17), key_of(expected));
            assert_eq!(key_of(value).mul_add(factor, 17).to_decimal(), expected.to_string());
        }
    }
}

#[test]
fn div_rem_matches_wide_arithmetic() {
    let values: [u128; 6] = [
        0,
        9,
        0xffff_ffff_ffff_ffff,
        0x1_0000_0000_0000_0000,
        0xffff_ffff_ffff_ffff_ffff_ffff_ffff_ffff,
        0x1234_5678_9abc_def0_1122_3344_5566_7788,
    ];
    let divisors: [u64; 5] = [1, 2, 10, 0x1_0000_0001, u64::MAX];
    for value in values {
        for divisor in divisors {
            let (quotient, remainder) = key_of(value).div_rem(divisor);
            assert_eq!(quotient, key_of(value / (divisor as u128)));
            assert_eq!(remainder as u128, value % (divisor as u128));
        }
    }
}

#[test]
fn div_rem_drops_leading_zero_limbs() {
    let key = Key::from_u64(1).mul_add(u64::MAX, 1); // 2^64
    assert_eq!(key.limbs(), vec![0, 1]);
    let (quotient, remainder) = key.div_rem(2);
    assert_eq!(quotient.limbs(), vec![1 << 63]);
    assert_eq!(remainder, 0);
    let (quotient, remainder) = key.div_rem(u64::MAX);
    assert_eq!(quotient, Key::from_u64(1));
    assert_eq!(remainder, 1);
}

#[test]
fn div_rem_undoes_mul_add() {
    let mut key = Key::from_u64(1);
    for step in 0..40u64 {
        key = key.mul_add(1_000_000_007, step);
    }
    for step in (0..40u64).rev() {
        let (quotient, remainder) = key.div_rem(1_000_000_007);
        assert_eq!(remainder, step);
        key = quotient;
    }
    assert_eq!(key, Key::from_u64(1));
}

#[test]
fn to_decimal_of_round_numbers() {
    assert_eq!(Key::from_u64(9).to_decimal(), "9");
    assert_eq!(Key::from_u64(10).to_decimal(), "10");
    assert_eq!(Key::from_u64(1000).to_decimal(), "1000");
    let mut key = Key::from_u64(1);
    for _ in 0..30 {
        key = key.mul_add(10, 0);
    }
    assert_eq!(key.to_decimal(), "1000000000000000000000000000000");
}
