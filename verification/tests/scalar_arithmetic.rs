use raytracer::scalar::Scalar;

fn s(x: f32) -> Scalar {
    Scalar::from_bits(x.to_bits())
}

fn f(x: Scalar) -> f32 {
    f32::from_bits(x.to_bits())
}

fn samples() -> Vec<f32> {
    vec![
        0.0,
        -0.0,
        1.0,
        -1.0,
        0.1,
        0.25,
        3.5,
        -7.125,
        1000.0,
        1.0e-3,
        16777216.0,
        3.0e38,
        1.0e-40,
        f32::INFINITY,
        f32::NEG_INFINITY,
    ]
}

#[test]
fn sum_matches_hardware() {
    for a in samples() {
        for b in samples() {
            let got = f(s(a) + s(b));
            let want = a + b;
            assert!(got.to_bits() == want.to_bits() || (got.is_nan() && want.is_nan()), "{} + {}", a, b);
        }
    }
}

#[test]
fn difference_matches_hardware() {
    for a in samples() {
        for b in samples() {
            let got = f(s(a) - s(b));
            let want = a - b;
            assert!(got == want || (got.is_nan() && want.is_nan()), "{} - {}", a, b);
        }
    }
}

#[test]
fn product_matches_hardware() {
    for a in samples() {
        for b in samples() {
            let got = f(s(a) * s(b));
            let want = a * b;
            assert!(got.to_bits() == want.to_bits() || (got.is_nan() && want.is_nan()), "{} * {}", a, b);
        }
    }
}

#[test]
fn quotient_matches_hardware() {
    for a in samples() {
        for b in samples() {
            let got = f(s(a) / s(b));
            let want = a / b;
            assert!(got.to_bits() == want.to_bits() || (got.is_nan() && want.is_nan()), "{} / {}", a, b);
        }
    }
}

#[test]
fn sum_of_one_and_two_is_three() {
    assert_eq!((s(1.0) + s(2.0)).to_bits(), 0x4040_0000);
}

#[test]
fn product_of_three_and_a_half_is_one_and_a_half() {
    assert_eq!((s(3.0) * s(0.5)).to_bits(), 0x3fc0_0000);
}

#[test]
fn quotient_of_one_and_four_is_a_quarter() {
    assert_eq!((s(1.0) / s(4.0)).to_bits(), 0x3e80_0000);
}

#[test]
fn zero_plus_zero_is_negative_only_for_two_negative_zeros() {
    assert_eq!((s(0.0) + s(0.0)).to_bits(), 0);
    assert_eq!((s(-0.0) + s(0.0)).to_bits(), 0);
    assert_eq!((s(0.0) + s(-0.0)).to_bits(), 0);
    assert_eq!((s(-0.0) + s(-0.0)).to_bits(), 0x8000_0000);
}

#[test]
fn zero_leaves_the_other_summand_as_it_is() {
    for a in samples() {
        if a != 0.0 {
            assert_eq!((s(a) + s(0.0)).to_bits(), a.to_bits());
            assert_eq!((s(-0.0) + s(a)).to_bits(), a.to_bits());
        }
    }
}

#[test]
fn zero_times_a_finite_number_is_a_signed_zero() {
    assert_eq!((s(0.0) * s(5.0)).to_bits(), 0);
    assert_eq!((s(-0.0) * s(5.0)).to_bits(), 0x8000_0000);
    assert_eq!((s(5.0) * s(-0.0)).to_bits(), 0x8000_0000);
    assert_eq!((s(-5.0) * s(-0.0)).to_bits(), 0);
}

#[test]
fn division_by_zero_gives_infinity_or_nan() {
    assert_eq!(f(s(1.0) / s(0.0)), f32::INFINITY);
    assert_eq!(f(s(-1.0) / s(0.0)), f32::NEG_INFINITY);
    assert!(f(s(0.0) / s(0.0)).is_nan());
}

#[test]
fn negation_flips_the_sign_bit() {
    assert_eq!((-s(1.5)).to_bits(), (-1.5f32).to_bits());
    assert_eq!((-s(0.0)).to_bits(), (-0.0f32).to_bits());
    assert_eq!((-s(-2.0)).to_bits(), 2.0f32.to_bits());
}

#[test]
fn abs_clears_the_sign_bit() {
    assert_eq!(s(-1.5).abs().to_bits(), 1.5f32.to_bits());
    assert_eq!(s(1.5).abs().to_bits(), 1.5f32.to_bits());
    assert_eq!(s(-0.0).abs().to_bits(), 0);
}

#[test]
fn square_root_matches_hardware() {
    for a in [0.0f32, 1.0, 2.0, 4.0, 0.25, 100.0, 1.0e-10, 3.0e38, 0.3] {
        assert_eq!(s(a).sqrt().to_bits(), a.sqrt().to_bits(), "sqrt {}", a);
    }
    assert_eq!(s(4.0).sqrt().to_bits(), 2.0f32.to_bits());
    assert!(f(s(-1.0).sqrt()).is_nan());
}

#[test]
fn sine_and_cosine_are_close_to_hardware() {
    for a in [0.0f32, 0.1, 0.5, 1.0, 1.5707964, 2.0, 3.0, 3.1415927, -1.0, 6.0, 10.0] {
        assert!((f(s(a).sin()) - a.sin()).abs() <= 1.0e-6, "sin {}", a);
        assert!((f(s(a).cos()) - a.cos()).abs() <= 1.0e-6, "cos {}", a);
    }
    assert_eq!(s(0.0).sin().to_bits(), 0);
    assert_eq!(s(0.0).cos().to_bits(), 1.0f32.to_bits());
}

#[test]
fn tangent_is_sine_over_cosine() {
    for a in [0.0f32, 0.1, 0.17453292, 0.5, 1.0, -1.0] {
        let t = s(a).tan();
        assert_eq!(t.to_bits(), (s(a).sin() / s(a).cos()).to_bits());
        assert!((f(t) - a.tan()).abs() <= 1.0e-6, "tan {}", a);
    }
}

#[test]
fn integers_become_the_nearest_number() {
    for n in [0, 1, -1, 2, 10, -11, 255, 1919, 16777216, 16777217, i32::MAX, i32::MIN] {
        assert_eq!(Scalar::from_i32(n).to_bits(), (n as f32).to_bits(), "{}", n);
    }
    assert_eq!(Scalar::from_i32(3).to_bits(), 0x4040_0000);
}

#[test]
fn numbers_lose_their_fraction() {
    for a in [0.0f32, 0.9, 1.0, 1.5, -1.5, 255.744, 255.99, 1079.99, -0.5, 3.0e9, -3.0e9, 1.0e-40] {
        assert_eq!(s(a).to_i32(), a as i32, "{}", a);
    }
    assert_eq!(s(255.744).to_i32(), 255);
    assert_eq!(s(f32::NAN).to_i32(), 0);
    assert_eq!(s(f32::INFINITY).to_i32(), i32::MAX);
    assert_eq!(s(f32::NEG_INFINITY).to_i32(), i32::MIN);
}

#[test]
fn order_matches_hardware() {
    let mut all = samples();
    all.push(f32::NAN);
    for a in all.clone() {
        for b in all.clone() {
            assert_eq!(s(a).lt(s(b)), a < b, "{} < {}", a, b);
            assert_eq!(s(a).le(s(b)), a <= b, "{} <= {}", a, b);
            assert_eq!(s(a).gt(s(b)), a > b, "{} > {}", a, b);
            assert_eq!(s(a).ge(s(b)), a >= b, "{} >= {}", a, b);
        }
    }
}

#[test]
fn zeros_are_equal_and_nan_is_unordered() {
    assert!(!s(-0.0).lt(s(0.0)));
    assert!(s(-0.0).le(s(0.0)));
    assert!(s(0.0).le(s(-0.0)));
    assert!(!s(f32::NAN).le(s(f32::NAN)));
    assert!(!s(f32::NAN).lt(s(1.0)));
    assert!(!s(1.0).gt(s(f32::NAN)));
}

#[test]
fn classification() {
    assert!(s(f32::NAN).nan());
    assert!(!s(f32::INFINITY).nan());
    assert!(!s(1.0).nan());
    assert!(s(1.0).finite());
    assert!(s(-0.0).finite());
    assert!(!s(f32::INFINITY).finite());
    assert!(!s(f32::NEG_INFINITY).finite());
    assert!(!s(f32::NAN).finite());
}

#[test]
fn min_and_max_give_way_to_numbers() {
    assert_eq!(f(s(1.0).min(s(2.0))), 1.0);
    assert_eq!(f(s(2.0).min(s(1.0))), 1.0);
    assert_eq!(f(s(1.0).max(s(2.0))), 2.0);
    assert_eq!(f(s(2.0).max(s(1.0))), 2.0);
    assert_eq!(f(s(f32::NAN).min(s(1.0))), 1.0);
    assert_eq!(f(s(1.0).min(s(f32::NAN))), 1.0);
    assert_eq!(f(s(f32::NAN).max(s(1.0))), 1.0);
    assert_eq!(f(s(1.0).max(s(f32::NAN))), 1.0);
    assert_eq!(f(s(-3.0).min(s(f32::NEG_INFINITY))), f32::NEG_INFINITY);
}

#[test]
fn bits_go_in_and_out_unchanged() {
    for bits in [0u32, 1, 0x3f80_0000, 0x7fc0_0000, 0xffff_ffff] {
        assert_eq!(Scalar::from_bits(bits).to_bits(), bits);
        assert_eq!(Scalar(bits).0, bits);
    }
}
