use sentrux::double::Double;
use sentrux::measures::{compute_instability, scale, scale_bits, to_points, Measured};
use serde_json::Value;

fn number(d: Double) -> f64 {
    d.mantissa as f64 * 2f64.powi(d.exponent as i32)
}

fn samples() -> Vec<u64> {
    let mut s: Vec<u64> = vec![
        0,
        1,
        2,
        3,
        5,
        7,
        10,
        100,
        999,
        10_000,
        u32::MAX as u64,
        (1 << 53) - 1,
        1 << 53,
        (1 << 53) + 1,
        (1 << 53) + 3,
        (1 << 54) + 2,
        (1 << 54) + 6,
        (1 << 63) + 1025,
        u64::MAX,
        u64::MAX - 1023,
    ];
    let mut x: u64 = 0x9E37_79B9_7F4A_7C15;
    for i in 0..60 {
        x = x.wrapping_mul(6364136223846793005).wrapping_add(1442695040888963407);
        s.push(x >> (i % 60));
    }
    s
}

#[test]
fn integers_become_the_doubles_of_the_hardware() {
    for n in samples() {
        assert_eq!(number(Double::of_u64(n)), n as f64, "{}", n);
    }
}

#[test]
fn products_are_those_of_the_hardware() {
    for a in samples() {
        for b in samples() {
            let r = Double::of_u64(a).times(Double::of_u64(b));
            assert_eq!(number(r), a as f64 * b as f64, "{} * {}", a, b);
        }
    }
}

#[test]
fn quotients_are_those_of_the_hardware() {
    for a in samples() {
        for b in samples() {
            if b > 0 {
                let r = Double::of_u64(a).over(Double::of_u64(b));
                assert_eq!(number(r), a as f64 / b as f64, "{} / {}", a, b);
            }
        }
    }
}

#[test]
fn order_is_that_of_the_hardware() {
    for a in samples() {
        for b in samples() {
            let (x, y) = (Double::of_u64(a), Double::of_u64(b));
            assert_eq!(x.is_below(y), (a as f64) < (b as f64));
            assert_eq!(number(x.max(y)), (a as f64).max(b as f64));
        }
    }
}

#[test]
fn integers_are_rounded_and_kept_in_range_as_by_the_hardware() {
    for a in samples() {
        for b in samples() {
            if b > 0 {
                let r = Double::of_u64(a).over(Double::of_u64(b));
                let q = a as f64 / b as f64;
                assert_eq!(r.to_u64(), q.round() as u64, "{} / {}", a, b);
                assert_eq!(r.to_u32(), q.round() as u32, "{} / {}", a, b);
            }
            let p = Double::of_u64(a).times(Double::of_u64(b));
            assert_eq!(p.to_u64(), (a as f64 * b as f64).round() as u64);
            assert_eq!(p.to_u32(), (a as f64 * b as f64).round() as u32);
        }
    }
}

#[test]
fn bits_are_read_as_the_hardware_writes_them() {
    for x in [1.0f64, 0.2, 0.5, 1.0 / 3.0, 123456.789, 1e300, 1e-300, f64::MIN_POSITIVE] {
        assert_eq!(number_in_two_steps(Double::of_bits(x.to_bits())), x);
    }
    for x in [0.0f64, -0.0, -1.5, f64::MIN_POSITIVE / 2.0, f64::INFINITY, f64::NAN] {
        assert_eq!(Double::of_bits(x.to_bits()).mantissa, 0);
    }
}

// Two steps, for exponents that a single power of two cannot reach.
fn number_in_two_steps(d: Double) -> f64 {
    let half = (d.exponent / 2) as i32;
    d.mantissa as f64 * 2f64.powi(half) * 2f64.powi(d.exponent as i32 - half)
}

#[test]
fn small_products_come_out_exact() {
    let r = Double::of_u64(94906265).times(Double::of_u64(94906265));
    assert_eq!(r.to_u64(), 94906265 * 94906265);
}

fn doubles() -> Vec<f64> {
    vec![
        0.0,
        -0.0,
        0.5,
        0.00005,
        0.00004999,
        1.0,
        0.33335,
        2.5,
        1e9,
        1e12,
        f64::MAX,
        f64::MIN_POSITIVE,
        f64::MIN_POSITIVE / 4.0,
        -0.5,
        -1e300,
        f64::INFINITY,
        f64::NEG_INFINITY,
        f64::NAN,
        -f64::NAN,
    ]
}

#[test]
fn shares_are_shown_in_hundredths_of_a_percent() {
    for x in doubles() {
        assert_eq!(to_points(x.to_bits()), (x * 10000.0).round() as u32, "{}", x);
    }
    assert_eq!(to_points(1.0f64.to_bits()), 10000);
    assert_eq!(to_points(f64::INFINITY.to_bits()), u32::MAX);
}

#[test]
fn every_double_is_scaled_as_by_the_hardware() {
    for x in doubles() {
        for n in [0u64, 1, 3, 10000, u64::MAX] {
            assert_eq!(scale_bits(x.to_bits(), n), (x * n as f64).round() as u32, "{} * {}", x, n);
        }
    }
}

#[test]
fn a_measured_double_is_shown_as_it_is() {
    for x in doubles() {
        let m = Measured::new(x.to_bits(), Value::from(x)).unwrap();
        assert_eq!(m.bits(), x.to_bits());
        assert_eq!(m.to_json(), Value::from(x));
        assert_eq!(m.to_json().is_null(), !x.is_finite());
    }
}

#[test]
fn a_measured_double_is_not_shown_as_another() {
    let one = 1.0f64.to_bits();
    assert!(Measured::new(one, Value::from(0.5)).is_none());
    assert!(Measured::new(one, Value::from(1)).is_none());
    assert!(Measured::new(one, Value::Null).is_none());
    assert!(Measured::new(one, Value::from("1.0")).is_none());
    assert!(Measured::new(f64::INFINITY.to_bits(), Value::from(1.0)).is_none());
    assert!(Measured::new(0.0f64.to_bits(), Value::from(-0.0)).is_none());
}

#[test]
fn shares_of_a_number_are_rounded() {
    let half = Double::of_u64(1).over(Double::of_u64(2));
    assert_eq!(scale(half, 5), 3);
    assert_eq!(scale(half, 4), 2);
    assert_eq!(scale(Double::of_u64(1), u64::MAX), u32::MAX);
}

#[test]
fn instability_is_the_share_of_fan_out() {
    for fan_in in 0..40usize {
        for fan_out in 0..40usize {
            let expected = if fan_in + fan_out > 0 {
                fan_out as f64 / (fan_in + fan_out) as f64
            } else {
                0.0
            };
            let r = compute_instability(fan_in, fan_out);
            assert_eq!(number(r), expected);
            assert_eq!(scale(r, 10000), (expected * 10000.0).round() as u32);
            assert!(scale(r, 10000) <= 10000);
        }
    }
    assert_eq!(scale(compute_instability(2, 1), 10000), 3333);
    assert_eq!(scale(compute_instability(0, usize::MAX), 10000), 10000);
}
