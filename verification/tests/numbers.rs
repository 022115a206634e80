use naive_bayes::bignat::BigNat;

fn same(a: &BigNat, b: &BigNat) -> bool {
    a.at_least(b) && b.at_least(a)
}

fn trimmed_limbs(n: &BigNat) -> Vec<u64> {
    n.clone().trimmed().limbs
}

#[test]
fn small_numbers_round_trip() {
    assert_eq!(trimmed_limbs(&BigNat::zero()), Vec::<u64>::new());
    assert_eq!(trimmed_limbs(&BigNat::from_u128(0)), Vec::<u64>::new());
    assert_eq!(trimmed_limbs(&BigNat::from_u128(7)), vec![7]);
    assert_eq!(trimmed_limbs(&BigNat::from_u128(1 << 64)), vec![0, 1]);
    assert_eq!(trimmed_limbs(&BigNat::from_u128(u128::MAX)), vec![u64::MAX, u64::MAX]);
    assert_eq!(BigNat { limbs: vec![3, 0, 0] }.trimmed().limbs, vec![3]);
    assert_eq!(BigNat { limbs: vec![0, 0] }.trimmed().limbs, Vec::<u64>::new());
}

#[test]
fn products_match_machine_arithmetic() {
    let pairs: [(u128, u128); 6] = [
        (0, 5),
        (1, 1),
        (12345, 67890),
        (u64::MAX as u128, u64::MAX as u128),
        (1 << 100, 1 << 27),
        (0xFFFF_FFFF_FFFF_FFFF_FFFF, 0xFFFF_FFFF_FFFF),
    ];
    for (x, y) in pairs {
        let product = BigNat::from_u128(x).mul(&BigNat::from_u128(y));
        assert_eq!(trimmed_limbs(&product), trimmed_limbs(&BigNat::from_u128(x * y)));
        let swapped = BigNat::from_u128(y).mul(&BigNat::from_u128(x));
        assert!(same(&product, &swapped));
    }
}

#[test]
fn products_grow_beyond_a_machine_word() {
    let max = BigNat::from_u128(u128::MAX);
    // (2^128 - 1)^2 = 2^256 - 2^129 + 1
    assert_eq!(trimmed_limbs(&max.mul(&max)), vec![1, 0, u64::MAX - 1, u64::MAX]);
    let two_to_129 = BigNat::from_u128(1 << 127).mul(&BigNat::from_u128(4));
    assert_eq!(trimmed_limbs(&two_to_129), vec![0, 0, 2]);
    let mut power = BigNat::from_u128(1);
    for _ in 0..10 {
        power = power.mul(&BigNat::from_u128(1 << 64));
    }
    let mut expected = vec![0u64; 10];
    expected.push(1);
    assert_eq!(trimmed_limbs(&power), expected);
}

#[test]
fn limb_products_and_shifts() {
    let n = BigNat::from_u128(u128::MAX);
    assert_eq!(trimmed_limbs(&n.mul_limb(0)), Vec::<u64>::new());
    assert_eq!(trimmed_limbs(&n.mul_limb(1)), vec![u64::MAX, u64::MAX]);
    assert_eq!(trimmed_limbs(&n.mul_limb(u64::MAX)), vec![1, u64::MAX, u64::MAX - 1]);
    assert_eq!(trimmed_limbs(&BigNat::from_u128(5).shifted(0)), vec![5]);
    assert_eq!(trimmed_limbs(&BigNat::from_u128(5).shifted(3)), vec![0, 0, 0, 5]);
    assert_eq!(trimmed_limbs(&BigNat::zero().shifted(4)), Vec::<u64>::new());
}

#[test]
fn sums_carry_across_limbs() {
    let max = BigNat::from_u128(u128::MAX);
    let one = BigNat::from_u128(1);
    assert_eq!(trimmed_limbs(&max.add(&one)), vec![0, 0, 1]);
    assert_eq!(trimmed_limbs(&one.add(&max)), vec![0, 0, 1]);
    assert_eq!(trimmed_limbs(&max.add(&max)), vec![u64::MAX - 1, u64::MAX, 1]);
    assert_eq!(trimmed_limbs(&BigNat::zero().add(&BigNat::zero())), Vec::<u64>::new());
    let long = BigNat { limbs: vec![u64::MAX, u64::MAX, u64::MAX, 7] };
    assert_eq!(trimmed_limbs(&long.add(&one)), vec![0, 0, 0, 8]);
    assert_eq!(trimmed_limbs(&BigNat::from_u128(40).add(&BigNat::from_u128(2))), vec![42]);
}

#[test]
fn comparison_orders_by_value() {
    let a = BigNat::from_u128(5);
    let b = BigNat::from_u128(6);
    assert!(b.at_least(&a));
    assert!(!a.at_least(&b));
    assert!(a.at_least(&a));
    assert!(BigNat::zero().at_least(&BigNat { limbs: vec![0, 0, 0] }));
    assert!(BigNat { limbs: vec![0, 0, 0] }.at_least(&BigNat::zero()));
    let high = BigNat { limbs: vec![0, 0, 1] };
    let low = BigNat { limbs: vec![u64::MAX, u64::MAX] };
    assert!(high.at_least(&low));
    assert!(!low.at_least(&high));
    let padded = BigNat { limbs: vec![u64::MAX, u64::MAX, 0, 0] };
    assert!(same(&low, &padded));
    let x = BigNat { limbs: vec![9, 1] };
    let y = BigNat { limbs: vec![1, 2] };
    assert!(y.at_least(&x));
    assert!(!x.at_least(&y));
}
