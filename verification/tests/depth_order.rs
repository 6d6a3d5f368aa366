use softraster::depth::{is_nearer, FAR_DEPTH};

#[test]
fn far_depth_is_positive_infinity() {
    assert_eq!(FAR_DEPTH, f64::INFINITY.to_bits());
}

#[test]
fn nearer_agrees_with_less_than() {
    let samples: Vec<f64> = vec![
        0.0,
        -0.0,
        1.0,
        -1.0,
        2.0,
        0.5,
        -0.5,
        1.0e-310,
        -1.0e-310,
        f64::MIN_POSITIVE,
        f64::MAX,
        f64::MIN,
        f64::INFINITY,
        f64::NEG_INFINITY,
        f64::NAN,
        -f64::NAN,
        f64::EPSILON,
        123456.789,
        -98765.4321,
    ];
    for a in samples.iter() {
        for b in samples.iter() {
            assert_eq!(is_nearer(a.to_bits(), b.to_bits()), a < b, "{} < {}", a, b);
        }
    }
}
