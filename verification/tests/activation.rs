use fixnet::activation_function::{ActivationFunction, LeakyRelu, Sigmoid};
use fixnet::fixed::SCALE;

#[test]
fn leaky_relu_passes_positive_values_through() {
    assert_eq!(LeakyRelu.normal(2_000_000_000), 2_000_000_000);
    assert_eq!(LeakyRelu.normal(0), 0);
    assert_eq!(LeakyRelu.normal(123_456_789), 123_456_789);
}

#[test]
fn leaky_relu_scales_negative_values_by_one_hundredth() {
    assert_eq!(LeakyRelu.normal(-3_000_000_000), -30_000_000);
    assert_eq!(LeakyRelu.normal(-100), -1);
}

#[test]
fn leaky_relu_derivative_is_one_or_one_hundredth() {
    assert_eq!(LeakyRelu.derivative(5), SCALE);
    assert_eq!(LeakyRelu.derivative(0), SCALE);
    assert_eq!(LeakyRelu.derivative(-5), 10_000_000);
}

#[test]
fn sigmoid_at_zero_is_exactly_one_half() {
    assert_eq!(Sigmoid.normal(0), 500_000_000);
}

#[test]
fn sigmoid_saturates_at_the_ends() {
    let high = Sigmoid.normal(20_000_000_000);
    let low = Sigmoid.normal(-20_000_000_000);
    assert!(high >= 999_000_000, "sigmoid(20) was {high}");
    assert!(low <= 1_000_000, "sigmoid(-20) was {low}");
}

#[test]
fn sigmoid_is_monotone_on_sample_points() {
    let mut prev = -1;
    for x in [-8_000_000_000i64, -2_000_000_000, -500_000_000, 0, 500_000_000, 2_000_000_000, 8_000_000_000] {
        let s = Sigmoid.normal(x);
        assert!(s >= prev, "sigmoid not monotone at {x}");
        assert!((0..=SCALE).contains(&s));
        prev = s;
    }
}

#[test]
fn sigmoid_derivative_at_zero_is_a_quarter() {
    assert_eq!(Sigmoid.derivative(0), 250_000_000);
}

#[test]
fn activation_dispatch_matches_the_variants() {
    let relu = ActivationFunction::LeakyRelu(LeakyRelu);
    let sig = ActivationFunction::Sigmoid(Sigmoid);
    assert_eq!(relu.normal(-200), LeakyRelu.normal(-200));
    assert_eq!(relu.derivative(-200), LeakyRelu.derivative(-200));
    assert_eq!(sig.normal(300_000_000), Sigmoid.normal(300_000_000));
    assert_eq!(sig.derivative(300_000_000), Sigmoid.derivative(300_000_000));
}
