use sim_core::order::{
    canonical_bits, is_nan_bits, less_than, nearer_than, total_cmp, CANONICAL_NAN,
};

fn samples() -> Vec<f32> {
    let mut xs = vec![
        0.0,
        -0.0,
        1.0,
        -1.0,
        0.1,
        -0.1,
        0.25,
        6.25,
        f32::MIN_POSITIVE,
        -f32::MIN_POSITIVE,
        f32::from_bits(1),
        f32::from_bits(0x8000_0001),
        f32::MAX,
        f32::MIN,
        f32::INFINITY,
        f32::NEG_INFINITY,
        f32::NAN,
        -f32::NAN,
        f32::from_bits(0x7f80_0001),
        f32::from_bits(0xff80_0001),
        f32::from_bits(0x7fff_ffff),
        f32::from_bits(0xffff_ffff),
    ];
    let mut seed: u32 = 0x1234_5678;
    for _ in 0..200 {
        seed ^= seed << 13;
        seed ^= seed >> 17;
        seed ^= seed << 5;
        xs.push(f32::from_bits(seed));
    }
    xs
}

#[test]
fn less_than_agrees_with_the_comparison_of_the_numbers() {
    for &a in &samples() {
        for &b in &samples() {
            assert_eq!(less_than(a.to_bits(), b.to_bits()), a < b, "{a:?} < {b:?}");
        }
    }
}

#[test]
fn total_cmp_agrees_with_the_total_order_of_the_numbers() {
    for &a in &samples() {
        for &b in &samples() {
            assert_eq!(total_cmp(a.to_bits(), b.to_bits()), a.total_cmp(&b), "{a:?} {b:?}");
        }
    }
}

#[test]
fn is_nan_bits_agrees_with_the_numbers() {
    for &a in &samples() {
        assert_eq!(is_nan_bits(a.to_bits()), a.is_nan(), "{a:?}");
    }
}

#[test]
fn nearer_than_counts_nan_as_farthest() {
    for &a in &samples() {
        for &b in &samples() {
            let expected = !a.is_nan() && (b.is_nan() || a < b);
            assert_eq!(nearer_than(a.to_bits(), b.to_bits()), expected, "{a:?} {b:?}");
        }
    }
    assert!(nearer_than(f32::INFINITY.to_bits(), f32::NAN.to_bits()));
    assert!(!nearer_than(f32::NAN.to_bits(), f32::INFINITY.to_bits()));
    assert!(!nearer_than(f32::NAN.to_bits(), f32::NAN.to_bits()));
}

#[test]
fn the_two_zeros_are_equal_as_numbers_and_apart_in_the_total_order() {
    let pos = 0.0f32.to_bits();
    let neg = (-0.0f32).to_bits();
    assert!(!less_than(neg, pos));
    assert!(!less_than(pos, neg));
    assert_eq!(total_cmp(neg, pos), std::cmp::Ordering::Less);
    assert_eq!(total_cmp(pos, neg), std::cmp::Ordering::Greater);
    assert_eq!(total_cmp(pos, pos), std::cmp::Ordering::Equal);
}

#[test]
fn canonical_bits_keeps_numbers_and_joins_the_nans() {
    for &a in &samples() {
        let c = canonical_bits(a.to_bits());
        if a.is_nan() {
            assert_eq!(c, CANONICAL_NAN);
        } else {
            assert_eq!(c, a.to_bits());
        }
        assert_eq!(f32::from_bits(c).is_nan(), a.is_nan());
        assert_eq!(canonical_bits(c), c);
    }
    assert!(f32::from_bits(CANONICAL_NAN).is_nan());
    for &a in &samples() {
        if !a.is_nan() {
            assert_eq!(total_cmp(a.to_bits(), CANONICAL_NAN), std::cmp::Ordering::Less);
        }
    }
}
