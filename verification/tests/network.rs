use fixnet::activation_function::{ActivationFunction, LeakyRelu, Sigmoid};
use fixnet::error_function::{ErrorFunction, LogErr, MSE};
use fixnet::layer::{DenseLayer, Layer, SoftmaxLayer};
use fixnet::network::Network;
use fixnet::NetError;

const ONE: i64 = 1_000_000_000;

fn relu() -> ActivationFunction {
    ActivationFunction::LeakyRelu(LeakyRelu)
}

fn sigmoid() -> ActivationFunction {
    ActivationFunction::Sigmoid(Sigmoid)
}

fn identity_dense(size: usize, act: ActivationFunction) -> DenseLayer {
    let mut layer = DenseLayer::new(size, size, act);
    for i in 0..size {
        for j in 0..size {
            layer.weights[i * size + j] = if i == j { ONE } else { 0 };
        }
        layer.bias[i] = 0;
    }
    layer
}

#[test]
fn forward_chains_the_layers_in_order() {
    let layers = vec![
        Layer::Dense(identity_dense(2, relu())),
        Layer::Softmax(SoftmaxLayer::new(2)),
    ];
    let mut net = Network::new(layers, ErrorFunction::LogErr(LogErr));
    let out = net.forward(&vec![0, 0]).unwrap();
    assert_eq!(out, vec![500_000_000, 500_000_000]);
    assert_eq!(net.outputs, vec![500_000_000, 500_000_000]);
    assert_eq!(net.inputs, vec![0, 0]);
}

#[test]
fn forward_rejects_an_input_that_does_not_fit_the_first_layer() {
    let layers = vec![Layer::Dense(identity_dense(2, relu()))];
    let mut net = Network::new(layers, ErrorFunction::MSE(MSE));
    assert_eq!(net.forward(&vec![1, 2, 3]), Err(NetError::ShapeMismatch));
}

#[test]
fn network_forward_is_deterministic() {
    let mut dense = DenseLayer::new(2, 2, relu());
    dense.weights = vec![300_000_000, -100_000_000, 250_000_000, 400_000_000];
    dense.bias = vec![7_000_000, -3_000_000];
    let layers = vec![Layer::Dense(dense), Layer::Softmax(SoftmaxLayer::new(2))];
    let mut net = Network::new(layers, ErrorFunction::MSE(MSE));
    let input = vec![600_000_000, -900_000_000];
    let first = net.forward(&input).unwrap();
    let second = net.forward(&input).unwrap();
    assert_eq!(first, second);
}

#[test]
fn backward_rejects_an_error_that_does_not_fit_the_last_layer() {
    let layers = vec![Layer::Dense(identity_dense(2, relu()))];
    let mut net = Network::new(layers, ErrorFunction::MSE(MSE));
    net.forward(&vec![0, 0]).unwrap();
    assert_eq!(net.backward(&vec![0], 10_000_000), Err(NetError::ShapeMismatch));
}

#[test]
fn backward_propagates_through_the_chain() {
    // Two identity layers with linear activations: the propagated error at
    // the input equals the upstream error.
    let layers = vec![
        Layer::Dense(identity_dense(1, relu())),
        Layer::Dense(identity_dense(1, relu())),
    ];
    let mut net = Network::new(layers, ErrorFunction::MSE(MSE));
    net.forward(&vec![ONE]).unwrap();
    let delta = net.backward(&vec![500_000_000], 0).unwrap();
    assert_eq!(delta, vec![500_000_000]);
}

#[test]
fn train_rejects_bad_dataset_shapes() {
    let make = || {
        Network::new(
            vec![Layer::Dense(identity_dense(2, relu()))],
            ErrorFunction::MSE(MSE),
        )
    };
    let empty: Vec<Vec<i64>> = vec![];
    assert_eq!(
        make().train(&empty, &vec![vec![0, 0]], 1, 1_000_000),
        Err(NetError::ShapeMismatch)
    );
    assert_eq!(
        make().train(&vec![vec![0]], &vec![vec![0, 0]], 1, 1_000_000),
        Err(NetError::ShapeMismatch)
    );
    assert_eq!(
        make().train(&vec![vec![0, 0]], &vec![vec![0]], 1, 1_000_000),
        Err(NetError::ShapeMismatch)
    );
    assert_eq!(
        make().train(&vec![vec![0, 0], vec![0, 0]], &vec![vec![0, 0]], 1, 1_000_000),
        Err(NetError::ShapeMismatch)
    );
    // A later example with the wrong shape fails inside the epoch.
    assert_eq!(
        make().train(&vec![vec![0, 0], vec![0]], &vec![vec![0, 0], vec![0, 0]], 1, 1_000_000),
        Err(NetError::ShapeMismatch)
    );
}

#[test]
fn train_reports_one_loss_per_epoch() {
    let mut dense = DenseLayer::new(1, 1, sigmoid());
    dense.weights = vec![0];
    dense.bias = vec![0];
    let mut net = Network::new(vec![Layer::Dense(dense)], ErrorFunction::MSE(MSE));
    let losses = net.train(&vec![vec![ONE]], &vec![vec![ONE]], 5, 1_000_000).unwrap();
    assert_eq!(losses.len(), 5);
    // prediction 0.5 against target 1.0: first epoch loss is 0.25
    assert_eq!(losses[0], 250_000_000);
}

#[test]
fn loss_decreases_over_one_hundred_epochs() {
    let mut dense = DenseLayer::new(1, 1, sigmoid());
    dense.weights = vec![0];
    dense.bias = vec![0];
    let mut net = Network::new(vec![Layer::Dense(dense)], ErrorFunction::MSE(MSE));
    let inputs = vec![vec![ONE], vec![-ONE]];
    let targets = vec![vec![ONE], vec![ONE]];
    let losses = net.train(&inputs, &targets, 100, 1_000_000).unwrap();
    assert!(
        losses[99] < losses[0],
        "loss after 100 epochs {} not below first epoch {}",
        losses[99],
        losses[0]
    );
}

fn xor_run_learns() -> bool {
    let hidden = 4;
    let layers = vec![
        Layer::Dense(DenseLayer::new(2, hidden, relu())),
        Layer::Dense(DenseLayer::new(hidden, 2, sigmoid())),
        Layer::Softmax(SoftmaxLayer::new(2)),
    ];
    let mut net = Network::new(layers, ErrorFunction::LogErr(LogErr));
    let inputs = vec![vec![0, 0], vec![0, ONE], vec![ONE, 0], vec![ONE, ONE]];
    let targets = vec![
        vec![ONE, 0],
        vec![0, ONE],
        vec![0, ONE],
        vec![ONE, 0],
    ];
    if net.train(&inputs, &targets, 4000, 10_000_000).is_err() {
        return false;
    }
    let mut correct = 0;
    for (input, target) in inputs.iter().zip(targets.iter()) {
        let pred = net.forward(input).unwrap();
        let pred_class = if pred[0] >= pred[1] { 0 } else { 1 };
        let true_class = if target[0] >= target[1] { 0 } else { 1 };
        if pred_class == true_class {
            correct += 1;
        }
    }
    correct >= 3
}

#[test]
fn xor_training_reaches_three_quarters_accuracy() {
    // Training is non-convex and the initial weights are random, so ask
    // for a probabilistic bound: most of a handful of runs must learn.
    let mut successes = 0;
    for _ in 0..5 {
        if xor_run_learns() {
            successes += 1;
        }
    }
    assert!(successes >= 3, "only {successes} of 5 runs learned xor");
}
