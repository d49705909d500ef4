use lart::double::{double_key, double_le};

#[test]
fn doubles_are_ordered_by_their_bits_as_by_their_values() {
    let samples = [
        0.0f64,
        -0.0,
        1.0,
        -1.0,
        0.5,
        -0.5,
        2.5e-308,
        -2.5e-308,
        5e-324,
        -5e-324,
        1e300,
        -1e300,
        f64::MAX,
        f64::MIN,
        f64::MIN_POSITIVE,
        f64::EPSILON,
        f64::INFINITY,
        f64::NEG_INFINITY,
        f64::NAN,
        -f64::NAN,
        f64::from_bits(0x7ff0_0000_0000_0001),
        f64::from_bits(0xfff8_0000_0000_0000),
        3.141592653589793,
        -273.15,
    ];
    for a in samples {
        for b in samples {
            assert_eq!(double_le(a.to_bits(), b.to_bits()), a <= b, "{a:?} <= {b:?}");
        }
    }
}

#[test]
fn keys_of_doubles_grow_with_the_doubles() {
    let mut samples = vec![
        f64::NEG_INFINITY,
        f64::MIN,
        -1e300,
        -273.15,
        -1.0,
        -0.5,
        -2.5e-308,
        -5e-324,
        -0.0,
        0.0,
        5e-324,
        2.5e-308,
        f64::MIN_POSITIVE,
        f64::EPSILON,
        0.5,
        1.0,
        3.141592653589793,
        1e300,
        f64::MAX,
        f64::INFINITY,
    ];
    samples.sort_by(|a, b| a.total_cmp(b));
    for pair in samples.windows(2) {
        assert!(double_key(pair[0].to_bits()) < double_key(pair[1].to_bits()), "{pair:?}");
    }
    for a in &samples {
        for b in &samples {
            assert_eq!(
                double_key(a.to_bits()).cmp(&double_key(b.to_bits())),
                a.total_cmp(b),
                "{a:?} {b:?}"
            );
        }
    }
    assert_eq!(double_key((-0.0f64).to_bits()) + 1, double_key(0.0f64.to_bits()));
    assert_eq!(double_key(0.0f64.to_bits()), 1 << 63);
}
