use colorgrad::scalar::{Scalar, EPSILON_BITS, INFINITY_BITS, ONE_BITS, SIGN_BIT, ZERO_BITS};

fn s(x: f32) -> Scalar {
    Scalar::from_bits(x.to_bits())
}

fn samples() -> Vec<f32> {
    vec![
        0.0,
        -0.0,
        1.0,
        -1.0,
        0.5,
        0.1,
        -0.1,
        1e-40,
        -1e-40,
        f32::MIN_POSITIVE,
        f32::EPSILON,
        f32::MAX,
        f32::MIN,
        f32::INFINITY,
        f32::NEG_INFINITY,
        f32::NAN,
        -f32::NAN,
        f32::from_bits(0x7f80_0001),
        f32::from_bits(0xffff_ffff),
        13.0,
        27.3,
        97.5,
        -100.0,
        100.0,
    ]
}

#[test]
fn constants_are_the_numbers_they_name() {
    assert_eq!(ZERO_BITS, 0.0f32.to_bits());
    assert_eq!(ONE_BITS, 1.0f32.to_bits());
    assert_eq!(EPSILON_BITS, f32::EPSILON.to_bits());
    assert_eq!(INFINITY_BITS, f32::INFINITY.to_bits());
    assert_eq!(SIGN_BIT, (-0.0f32).to_bits());
    assert_eq!(Scalar::zero().to_bits(), 0.0f32.to_bits());
    assert_eq!(Scalar::one().to_bits(), 1.0f32.to_bits());
    assert_eq!(Scalar::epsilon().to_bits(), f32::EPSILON.to_bits());
}

#[test]
fn order_agrees_with_the_numbers() {
    for &a in &samples() {
        assert_eq!(s(a).nan(), a.is_nan(), "nan {a}");
        for &b in &samples() {
            assert_eq!(s(a).less(&s(b)), a < b, "{a} < {b}");
            assert_eq!(s(a).less_eq(&s(b)), a <= b, "{a} <= {b}");
            assert_eq!(s(a).equals(&s(b)), a == b, "{a} == {b}");
        }
    }
}

#[test]
fn order_agrees_on_a_sweep_of_bit_patterns() {
    let mut bits: u32 = 0;
    let mut prev: Option<u32> = None;
    loop {
        let x = f32::from_bits(bits);
        assert_eq!(s(x).nan(), x.is_nan());
        if let Some(p) = prev {
            let y = f32::from_bits(p);
            assert_eq!(s(y).less(&s(x)), y < x);
            assert_eq!(s(x).less(&s(y)), x < y);
            assert_eq!(s(x).less_eq(&s(y)), x <= y);
        }
        prev = Some(bits);
        match bits.checked_add(0x0003_fffd) {
            Some(next) => bits = next,
            None => break,
        }
    }
}

#[test]
fn max_agrees_with_the_numbers() {
    for &a in &samples() {
        for &b in &samples() {
            let m = f32::from_bits(s(a).max(s(b)).to_bits());
            let expected = a.max(b);
            if expected.is_nan() {
                assert!(m.is_nan());
            } else {
                assert!(m == expected, "max({a}, {b})");
            }
        }
    }
}

#[test]
fn key_orders_the_two_zeros_alike() {
    assert_eq!(s(0.0).order_key(), 0);
    assert_eq!(s(-0.0).order_key(), 0);
    assert_eq!(s(1.0).order_key(), ONE_BITS as i64);
    assert_eq!(s(-1.0).order_key(), -(ONE_BITS as i64));
}
