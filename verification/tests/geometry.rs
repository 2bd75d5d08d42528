use glam::Vec2;
use sim_core::geometry::{distance_squared_bits, length_squared_bits};
use sim_core::order::CANONICAL_NAN;

#[test]
fn distance_squared_bits_is_the_squared_length_of_the_difference() {
    let a = Vec2::new(4.0, 6.0);
    let b = Vec2::new(1.0, 2.0);
    assert_eq!(distance_squared_bits(a, b), 25.0f32.to_bits());
    assert_eq!(distance_squared_bits(b, a), 25.0f32.to_bits());
    assert_eq!(distance_squared_bits(a, a), 0.0f32.to_bits());
}

#[test]
fn distance_squared_bits_rounds_as_the_vector_arithmetic_does() {
    let pairs = [
        (Vec2::new(0.1, 0.2), Vec2::new(0.3, -0.7)),
        (Vec2::new(1.0e-20, 3.0), Vec2::new(-1.0e20, 2.5)),
        (Vec2::new(123.456, -0.001), Vec2::new(-7.0, 1.0e-3)),
    ];
    for (a, b) in pairs {
        assert_eq!(distance_squared_bits(a, b), (a - b).length_squared().to_bits());
    }
}

#[test]
fn distance_squared_bits_of_what_has_no_distance_is_the_canonical_nan() {
    let a = Vec2::new(f32::INFINITY, 0.0);
    let d = distance_squared_bits(a, a);
    assert!(f32::from_bits(d).is_nan());
    assert_eq!(d, CANONICAL_NAN);
    assert_eq!(d, 0x7fc0_0000);
}

#[test]
fn length_squared_bits_brings_every_nan_to_one_pattern() {
    let nans = [
        f32::NAN,
        -f32::NAN,
        f32::from_bits(0x7f80_0001),
        f32::from_bits(0xffc0_1234),
        f32::from_bits(0xffff_ffff),
    ];
    for x in nans {
        assert_eq!(length_squared_bits(Vec2::new(x, 1.0)), CANONICAL_NAN);
        assert_eq!(length_squared_bits(Vec2::new(0.0, x)), CANONICAL_NAN);
        assert_eq!(distance_squared_bits(Vec2::new(x, 0.0), Vec2::new(1.0, 1.0)), CANONICAL_NAN);
    }
}

#[test]
fn length_squared_bits_of_a_number_is_its_pattern() {
    let vs = [
        Vec2::new(3.0, 4.0),
        Vec2::new(0.0, 0.0),
        Vec2::new(-0.0, 1.0e-30),
        Vec2::new(0.1, 0.7),
    ];
    for v in vs {
        assert_eq!(length_squared_bits(v), v.length_squared().to_bits());
    }
    assert_eq!(length_squared_bits(Vec2::new(3.0, 4.0)), 25.0f32.to_bits());
    assert_eq!(length_squared_bits(Vec2::new(1.0e30, 0.0)), f32::INFINITY.to_bits());
}
