use jacobi::{
    jacobi_base, jacobi_fixed, jacobi_new, jacobi_num_bigint_dig, jacobi_taiko, select_width,
    FixedInt, JacobiError, SignedInt,
};
use rand::{thread_rng, Rng};

fn signed_from_digits(negative: bool, digits: Vec<u32>) -> SignedInt {
    SignedInt { negative, digits }
}

fn u32s_to_u64s(digits: &[u32]) -> Vec<u64> {
    let mut out = Vec::new();
    let mut i = 0;
    while i < digits.len() {
        let lo = digits[i] as u64;
        let hi = if i + 1 < digits.len() {
            digits[i + 1] as u64
        } else {
            0
        };
        out.push(lo | (hi << 32));
        i += 2;
    }
    out
}

#[test]
fn test_jacobi_base() {
    let a = SignedInt::from_i64(10);
    let m = SignedInt::from_i64(21);
    assert_eq!(jacobi_base(&a, &m).unwrap(), -1);
}

#[test]
fn test_jacobi_new() {
    let a = SignedInt::from_i64(10);
    let m = SignedInt::from_i64(21);
    assert_eq!(jacobi_new(&a, &m).unwrap(), -1);

    let mut rnd = thread_rng();
    for _ in 0..100 {
        // Ensure inputs are odd
        let a_val: i64 = rnd.gen_range(3..1000) | 1;
        let m_val: i64 = rnd.gen_range(3..1000) | 1;

        let a = SignedInt::from_i64(a_val);
        let m = SignedInt::from_i64(m_val);

        let result = jacobi_new(&a, &m).unwrap();
        println!("a = {}, m = {}, (a/m) = {}", a_val, m_val, result);
        let expected = jacobi_base(&a, &m).unwrap();
        assert_eq!(expected, result);

        let result_taiko = jacobi_taiko::<2>(&[a_val as u64], &[m_val as u64]).unwrap();
        assert_eq!(expected, result_taiko);
    }
}

#[test]
fn concrete_vectors() {
    let cases: [(i64, i64, i8); 5] = [
        (10, 21, -1),
        (1001, 9907, -1),
        (19, 45, 1),
        (5, 21, 1),
        (0, 5, 0),
    ];
    for (av, mv, want) in cases {
        let a = SignedInt::from_i64(av);
        let m = SignedInt::from_i64(mv);
        assert_eq!(jacobi_base(&a, &m).unwrap(), want);
        assert_eq!(jacobi_new(&a, &m).unwrap(), want);
        assert_eq!(jacobi_num_bigint_dig(&a, &m).unwrap(), want);
        assert_eq!(jacobi_taiko::<2>(&[av as u64], &[mv as u64]).unwrap(), want);
    }
}

#[test]
fn invalid_modulus_rejected() {
    let a = SignedInt::from_i64(17);
    for mv in [0i64, -3, 4] {
        let m = SignedInt::from_i64(mv);
        assert_eq!(jacobi_base(&a, &m), Err(JacobiError::InvalidModulus));
        assert_eq!(jacobi_new(&a, &m), Err(JacobiError::InvalidModulus));
        assert_eq!(jacobi_num_bigint_dig(&a, &m), Err(JacobiError::InvalidModulus));
    }
    assert_eq!(
        jacobi_taiko::<2>(&[5], &[4]),
        Err(JacobiError::InvalidModulus)
    );
    assert_eq!(
        jacobi_taiko::<2>(&[5], &[0]),
        Err(JacobiError::InvalidModulus)
    );
}

#[test]
fn capacity_exceeded_rejected() {
    // More words than the width class holds.
    assert_eq!(
        jacobi_taiko::<1>(&[1, 2], &[21]),
        Err(JacobiError::CapacityExceeded)
    );
    // A modulus that uses the width's top bit leaves no headroom.
    assert_eq!(
        jacobi_taiko::<1>(&[5], &[0x8000_0000_0000_0001]),
        Err(JacobiError::CapacityExceeded)
    );
    // An even modulus is reported as invalid before capacity is checked.
    assert_eq!(
        jacobi_taiko::<1>(&[5], &[0x8000_0000_0000_0000]),
        Err(JacobiError::InvalidModulus)
    );
}

#[test]
fn numerator_one_gives_one() {
    for mv in [1i64, 3, 5, 21, 45, 9907, 999_999_999] {
        let one = SignedInt::from_i64(1);
        let m = SignedInt::from_i64(mv);
        assert_eq!(jacobi_base(&one, &m).unwrap(), 1);
        assert_eq!(jacobi_new(&one, &m).unwrap(), 1);
    }
}

#[test]
fn modulus_one_gives_one() {
    for av in [-1000i64, -7, -1, 0, 1, 2, 17, 999_999] {
        let a = SignedInt::from_i64(av);
        let m = SignedInt::from_i64(1);
        assert_eq!(jacobi_base(&a, &m).unwrap(), 1);
        assert_eq!(jacobi_new(&a, &m).unwrap(), 1);
    }
}

#[test]
fn periodic_in_numerator() {
    let m_val: i64 = 21;
    let m = SignedInt::from_i64(m_val);
    for av in [-40i64, -3, 0, 2, 5, 10, 19] {
        let base = jacobi_base(&SignedInt::from_i64(av), &m).unwrap();
        for k in [-3i64, -1, 1, 2, 7] {
            let shifted = SignedInt::from_i64(av + k * m_val);
            assert_eq!(jacobi_base(&shifted, &m).unwrap(), base);
            assert_eq!(jacobi_new(&shifted, &m).unwrap(), base);
        }
    }
}

#[test]
fn multiplicative_in_numerator() {
    let m = SignedInt::from_i64(45);
    for av in [2i64, 5, 7, 11, 19] {
        for bv in [3i64, 5, 13, 17] {
            let ja = jacobi_base(&SignedInt::from_i64(av), &m).unwrap();
            let jb = jacobi_base(&SignedInt::from_i64(bv), &m).unwrap();
            let jab = jacobi_base(&SignedInt::from_i64(av * bv), &m).unwrap();
            assert_eq!(jab, ja * jb);
        }
    }
}

fn gcd_u64(mut a: u64, mut b: u64) -> u64 {
    while b != 0 {
        let t = a % b;
        a = b;
        b = t;
    }
    a
}

#[test]
fn zero_iff_common_factor() {
    for av in -30i64..30 {
        for mv in [1i64, 3, 5, 9, 15, 21, 25, 45] {
            let a = SignedInt::from_i64(av);
            let m = SignedInt::from_i64(mv);
            let j = jacobi_base(&a, &m).unwrap();
            let g = gcd_u64(av.unsigned_abs(), mv as u64);
            assert_eq!(j == 0, g > 1, "a={} m={}", av, mv);
            assert_eq!(jacobi_new(&a, &m).unwrap(), j);
        }
    }
}

#[test]
fn negative_numerators() {
    // (-1/m) is 1 for m = 1 mod 4 and -1 for m = 3 mod 4.
    let minus_one = SignedInt::from_i64(-1);
    assert_eq!(jacobi_base(&minus_one, &SignedInt::from_i64(5)).unwrap(), 1);
    assert_eq!(jacobi_base(&minus_one, &SignedInt::from_i64(7)).unwrap(), -1);
    assert_eq!(jacobi_new(&minus_one, &SignedInt::from_i64(13)).unwrap(), 1);
    assert_eq!(jacobi_new(&minus_one, &SignedInt::from_i64(19)).unwrap(), -1);
    assert_eq!(
        jacobi_num_bigint_dig(&minus_one, &SignedInt::from_i64(7)).unwrap(),
        -1
    );
}

#[test]
fn select_width_matches_bit_lengths() {
    assert_eq!(select_width(128), 3);
    assert_eq!(select_width(256), 5);
    assert_eq!(select_width(384), 7);
    assert_eq!(select_width(512), 9);
    assert_eq!(select_width(768), 13);
    assert_eq!(select_width(1024), 17);
    assert_eq!(select_width(2048), 33);
    assert_eq!(select_width(3072), 49);
    assert_eq!(select_width(0), 1);
    assert_eq!(select_width(63), 1);
    assert_eq!(select_width(64), 2);
}

#[test]
fn fixed_int_roundtrip() {
    let f = FixedInt::<3>::from_words(&[10]).unwrap();
    let m = FixedInt::<3>::from_words(&[21]).unwrap();
    assert_eq!(jacobi_fixed(&f, &m).unwrap(), -1);
    assert!(FixedInt::<1>::from_words(&[1, 2]).is_err());
}

#[test]
fn differential_small_random() {
    let mut rnd = thread_rng();
    for round in 0..10_000 {
        let n_digits = rnd.gen_range(1..=12);
        let a_digits: Vec<u32> = (0..n_digits).map(|_| rnd.gen()).collect();
        let mut m_digits: Vec<u32> = (0..n_digits).map(|_| rnd.gen()).collect();
        if let Some(first) = m_digits.first_mut() {
            *first |= 1; // odd modulus
        }
        let negative = rnd.gen_bool(0.5);
        let a = signed_from_digits(negative, a_digits.clone());
        let m = signed_from_digits(false, m_digits.clone());
        let b = jacobi_base(&a, &m).unwrap();
        let n = jacobi_new(&a, &m).unwrap();
        let d = jacobi_num_bigint_dig(&a, &m).unwrap();
        assert!(b == -1 || b == 0 || b == 1);
        assert_eq!(b, n);
        assert_eq!(b, d);
        if !negative && round % 50 == 0 {
            let t = jacobi_taiko::<9>(&u32s_to_u64s(&a_digits), &u32s_to_u64s(&m_digits));
            assert_eq!(b, t.unwrap());
        }
    }
}

#[test]
fn differential_large_random() {
    let mut rnd = thread_rng();
    for round in 0..12 {
        let n_digits = rnd.gen_range(64..=96); // up to roughly three thousand bits
        let a_digits: Vec<u32> = (0..n_digits).map(|_| rnd.gen()).collect();
        let mut m_digits: Vec<u32> = (0..n_digits).map(|_| rnd.gen()).collect();
        m_digits[0] |= 1;
        let a = signed_from_digits(false, a_digits.clone());
        let m = signed_from_digits(false, m_digits.clone());
        let b = jacobi_base(&a, &m).unwrap();
        let n = jacobi_new(&a, &m).unwrap();
        let d = jacobi_num_bigint_dig(&a, &m).unwrap();
        assert!(b == -1 || b == 0 || b == 1);
        assert_eq!(b, n);
        assert_eq!(b, d);
    }
}

#[test]
fn fixed_width_medium_random() {
    let mut rnd = thread_rng();
    for _ in 0..3 {
        let n_digits = 30; // roughly a thousand bits
        let a_digits: Vec<u32> = (0..n_digits).map(|_| rnd.gen()).collect();
        let mut m_digits: Vec<u32> = (0..n_digits).map(|_| rnd.gen()).collect();
        m_digits[0] |= 1;
        let a = signed_from_digits(false, a_digits.clone());
        let m = signed_from_digits(false, m_digits.clone());
        let b = jacobi_base(&a, &m).unwrap();
        let t = jacobi_taiko::<17>(&u32s_to_u64s(&a_digits), &u32s_to_u64s(&m_digits));
        assert_eq!(b, t.unwrap());
    }
}
