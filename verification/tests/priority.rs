use std::cmp::Ordering;

use crucible::priority::{f32_bits_gt, priority_key, SLEEP_THRESHOLD_BITS};
use ordered_float::OrderedFloat;

fn samples() -> Vec<f32> {
    let mut v = vec![
        0.0,
        -0.0,
        0.1,
        -0.1,
        1.0,
        -1.0,
        2.5,
        -2.5,
        1e-40,
        -1e-40,
        f32::MIN_POSITIVE,
        f32::MAX,
        f32::MIN,
        f32::INFINITY,
        f32::NEG_INFINITY,
        f32::NAN,
        -f32::NAN,
        f32::from_bits(0x7FC0_0001),
        f32::from_bits(0xFF80_0001),
        12345.678,
        0.099999994,
        0.10000001,
    ];
    let mut x: u32 = 0x1234_5678;
    for _ in 0..200 {
        x = x.wrapping_mul(1_664_525).wrapping_add(1_013_904_223);
        v.push(f32::from_bits(x));
    }
    v
}

#[test]
fn sleep_threshold_is_one_tenth() {
    assert_eq!(SLEEP_THRESHOLD_BITS, 0.1f32.to_bits());
}

#[test]
fn priority_key_orders_like_ordered_float() {
    let s = samples();
    for a in &s {
        for b in &s {
            let expected = OrderedFloat(*a).cmp(&OrderedFloat(*b));
            let got = priority_key(a.to_bits()).cmp(&priority_key(b.to_bits()));
            assert_eq!(got, expected, "{:?} vs {:?}", a, b);
        }
    }
}

#[test]
fn priority_key_of_nan_is_largest_and_zeros_agree() {
    assert_eq!(priority_key(f32::NAN.to_bits()), u32::MAX);
    assert_eq!(priority_key((-f32::NAN).to_bits()), u32::MAX);
    assert_eq!(priority_key(0.0f32.to_bits()), priority_key((-0.0f32).to_bits()));
    assert_eq!(priority_key(0.0f32.to_bits()), 0x8000_0000);
    assert_eq!(
        priority_key(1.0f32.to_bits()).cmp(&priority_key(f32::INFINITY.to_bits())),
        Ordering::Less
    );
}

#[test]
fn bits_gt_matches_float_gt() {
    let s = samples();
    for a in &s {
        for b in &s {
            assert_eq!(f32_bits_gt(a.to_bits(), b.to_bits()), a > b, "{:?} > {:?}", a, b);
        }
    }
}
