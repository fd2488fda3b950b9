use fixnet::activation_function::{ActivationFunction, LeakyRelu, Sigmoid};
use fixnet::error_function::MSE;
use fixnet::layer::{DenseLayer, SoftmaxLayer};
use fixnet::NetError;

fn relu() -> ActivationFunction {
    ActivationFunction::LeakyRelu(LeakyRelu)
}

#[test]
fn fresh_dense_layer_has_small_weights_and_zero_bias() {
    let layer = DenseLayer::new(3, 2, relu());
    assert_eq!(layer.get_input_size(), 3);
    assert_eq!(layer.get_output_size(), 2);
    assert_eq!(layer.weights.len(), 6);
    assert_eq!(layer.bias, vec![0, 0]);
    for &w in layer.weights.iter() {
        assert!((0..1_000_000).contains(&w), "weight {w} outside [0, 0.001)");
    }
}

#[test]
fn dense_forward_computes_the_weighted_sums() {
    let mut layer = DenseLayer::new(2, 1, relu());
    layer.weights = vec![500_000_000, 250_000_000];
    layer.bias = vec![100_000_000];
    let out = layer.forward(&vec![1_000_000_000, 2_000_000_000]).unwrap();
    // 0.1 + 1.0 * 0.5 + 2.0 * 0.25 = 1.1
    assert_eq!(out, vec![1_100_000_000]);
    assert_eq!(layer.outputs, vec![1_100_000_000]);
    assert_eq!(layer.inputs, vec![1_000_000_000, 2_000_000_000]);
}

#[test]
fn dense_forward_applies_the_activation() {
    let mut layer = DenseLayer::new(1, 1, relu());
    layer.weights = vec![1_000_000_000];
    layer.bias = vec![0];
    let out = layer.forward(&vec![-2_000_000_000]).unwrap();
    // pre-activation -2.0, leaky: -0.02
    assert_eq!(out, vec![-20_000_000]);
}

#[test]
fn dense_forward_is_deterministic() {
    let mut layer = DenseLayer::new(2, 2, relu());
    layer.weights = vec![300_000_000, -200_000_000, 150_000_000, 700_000_000];
    layer.bias = vec![10_000_000, -5_000_000];
    let input = vec![900_000_000, -400_000_000];
    let first = layer.forward(&input).unwrap();
    let second = layer.forward(&input).unwrap();
    assert_eq!(first, second);
}

#[test]
fn dense_forward_rejects_a_wrong_length_input() {
    let mut layer = DenseLayer::new(2, 1, relu());
    layer.weights = vec![500_000_000, 250_000_000];
    let before = layer.weights.clone();
    assert_eq!(layer.forward(&vec![1_000_000_000]), Err(NetError::ShapeMismatch));
    assert_eq!(layer.weights, before);
    // The caches were never primed, so backward still reports staleness.
    assert_eq!(layer.backward(&vec![0], 10_000_000), Err(NetError::StaleCache));
}

#[test]
fn dense_backward_rejects_a_wrong_length_error_vector() {
    let mut layer = DenseLayer::new(2, 1, relu());
    layer.forward(&vec![0, 0]).unwrap();
    assert_eq!(layer.backward(&vec![0, 0], 10_000_000), Err(NetError::ShapeMismatch));
}

#[test]
fn dense_backward_without_a_fresh_forward_is_stale() {
    let mut layer = DenseLayer::new(1, 1, relu());
    assert_eq!(layer.backward(&vec![0], 10_000_000), Err(NetError::StaleCache));
    layer.forward(&vec![0]).unwrap();
    assert!(layer.backward(&vec![0], 10_000_000).is_ok());
    assert_eq!(layer.backward(&vec![0], 10_000_000), Err(NetError::StaleCache));
}

#[test]
fn dense_backward_updates_the_bias_exactly() {
    let mut layer = DenseLayer::new(1, 1, relu());
    layer.weights = vec![1_000_000_000];
    layer.bias = vec![0];
    layer.forward(&vec![1_000_000_000]).unwrap();
    // gradient = 2.0 * leaky'(1.0) = 2.0; bias -= 2.0 * 0.01 = 0.02
    let propagated = layer.backward(&vec![2_000_000_000], 10_000_000).unwrap();
    assert_eq!(layer.bias, vec![-20_000_000]);
    // weight -= 2.0 * 1.0 * 0.01; propagated uses the pre-update weight
    assert_eq!(layer.weights, vec![980_000_000]);
    assert_eq!(propagated, vec![2_000_000_000]);
}

#[test]
fn dense_backward_gradient_matches_a_finite_difference() {
    // One unit, linear region of the activation, squared error to target 0.
    let x = 1_000_000_000i64;
    let w = 500_000_000i64;
    let h = 10_000_000i64;

    let loss_at = |weight: i64| -> i64 {
        let mut layer = DenseLayer::new(1, 1, relu());
        layer.weights = vec![weight];
        layer.bias = vec![0];
        let pred = layer.forward(&vec![x]).unwrap()[0];
        MSE.normal(pred, 0).unwrap()
    };
    let slope = (loss_at(w + h) - loss_at(w)) * 1_000_000_000 / h;

    let mut layer = DenseLayer::new(1, 1, relu());
    layer.weights = vec![w];
    layer.bias = vec![0];
    let pred = layer.forward(&vec![x]).unwrap()[0];
    let err = MSE.derivative(pred, 0).unwrap();
    // With learning rate 1.0 the weight moves by exactly the gradient.
    layer.backward(&vec![err], 1_000_000_000).unwrap();
    let analytic = w - layer.weights[0];

    let gap = (slope - analytic).abs();
    assert!(gap <= 2 * h, "finite difference {slope} vs analytic {analytic}");
}

#[test]
fn dense_forward_reports_overflow_as_a_numeric_defect() {
    let mut layer = DenseLayer::new(1, 1, relu());
    layer.weights = vec![i64::MAX];
    layer.bias = vec![0];
    assert_eq!(layer.forward(&vec![2_000_000_000]), Err(NetError::FatalNumericDefect));
    // Nothing was cached by the failed call.
    assert_eq!(layer.backward(&vec![0], 10_000_000), Err(NetError::StaleCache));
}

#[test]
fn dense_layer_supports_sigmoid_activation() {
    let mut layer = DenseLayer::new(1, 1, ActivationFunction::Sigmoid(Sigmoid));
    layer.weights = vec![1_000_000_000];
    layer.bias = vec![0];
    let out = layer.forward(&vec![0]).unwrap();
    assert_eq!(out, vec![500_000_000]);
}

#[test]
fn softmax_of_equal_inputs_is_uniform() {
    let mut layer = SoftmaxLayer::new(2);
    let out = layer.forward(&vec![0, 0]).unwrap();
    assert_eq!(out, vec![500_000_000, 500_000_000]);
    let mut layer3 = SoftmaxLayer::new(4);
    let out3 = layer3.forward(&vec![250_000_000; 4]).unwrap();
    assert_eq!(out3, vec![250_000_000; 4]);
}

#[test]
fn softmax_outputs_are_a_distribution() {
    let mut layer = SoftmaxLayer::new(3);
    let out = layer.forward(&vec![700_000_000, -200_000_000, 1_300_000_000]).unwrap();
    let mut sum = 0i64;
    for &o in out.iter() {
        assert!((0..=1_000_000_000).contains(&o));
        sum += o;
    }
    assert!(sum <= 1_000_000_000, "sum {sum}");
    assert!(sum >= 1_000_000_000 - 3, "sum {sum}");
    // The largest input gets the largest share.
    assert!(out[2] > out[0] && out[0] > out[1]);
}

#[test]
fn softmax_is_translation_invariant() {
    let mut a = SoftmaxLayer::new(3);
    let mut b = SoftmaxLayer::new(3);
    let base = a.forward(&vec![1_000_000_000, 3_000_000_000, -500_000_000]).unwrap();
    let shifted = b.forward(&vec![1_777_000_000, 3_777_000_000, 277_000_000]).unwrap();
    assert_eq!(base, shifted);
}

#[test]
fn softmax_shapes_and_cache_protocol() {
    let mut layer = SoftmaxLayer::new(2);
    assert_eq!(layer.get_input_size(), 2);
    assert_eq!(layer.get_output_size(), 2);
    assert_eq!(layer.forward(&vec![1, 2, 3]), Err(NetError::ShapeMismatch));
    assert_eq!(layer.backward(&vec![0, 0], 0), Err(NetError::StaleCache));
    layer.forward(&vec![0, 0]).unwrap();
    assert_eq!(layer.backward(&vec![0], 0), Err(NetError::ShapeMismatch));
    assert!(layer.backward(&vec![0, 0], 0).is_ok());
    assert_eq!(layer.backward(&vec![0, 0], 0), Err(NetError::StaleCache));
}

#[test]
fn softmax_backward_scales_by_the_diagonal_term() {
    let mut layer = SoftmaxLayer::new(2);
    layer.forward(&vec![0, 0]).unwrap();
    // output (1 - output) = 0.25 at a uniform distribution
    let back = layer.backward(&vec![1_000_000_000, -1_000_000_000], 10_000_000).unwrap();
    assert_eq!(back, vec![250_000_000, -250_000_000]);
}
