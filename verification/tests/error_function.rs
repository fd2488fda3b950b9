use fixnet::error_function::{ErrorFunction, LogErr, MSE};

#[test]
fn mse_is_the_squared_difference() {
    assert_eq!(MSE.normal(700_000_000, 200_000_000), Some(250_000_000));
    assert_eq!(MSE.normal(200_000_000, 700_000_000), Some(250_000_000));
    assert_eq!(MSE.normal(1_000_000, 1_000_000), Some(0));
}

#[test]
fn mse_derivative_is_twice_the_difference() {
    assert_eq!(MSE.derivative(700_000_000, 200_000_000), Some(1_000_000_000));
    assert_eq!(MSE.derivative(200_000_000, 700_000_000), Some(-1_000_000_000));
}

#[test]
fn mse_overflow_is_a_defect() {
    assert_eq!(MSE.normal(i64::MAX, i64::MIN + 1), None);
    assert_eq!(MSE.derivative(i64::MAX, -2), None);
}

#[test]
fn log_loss_of_a_perfect_prediction_is_zero() {
    assert_eq!(LogErr.normal(1_000_000_000, 1_000_000_000), Some(0));
    assert_eq!(LogErr.normal(0, 0), Some(0));
}

#[test]
fn log_loss_of_one_half_is_ln_two() {
    let loss = LogErr.normal(500_000_000, 1_000_000_000).unwrap();
    assert!((685_000_000..=695_000_000).contains(&loss), "got {loss}");
    let mirrored = LogErr.normal(500_000_000, 0).unwrap();
    assert_eq!(loss, mirrored);
}

#[test]
fn log_loss_derivative_is_the_negative_reciprocal() {
    assert_eq!(LogErr.derivative(500_000_000, 1_000_000_000), Some(-2_000_000_000));
    assert_eq!(LogErr.derivative(250_000_000, 1_000_000_000), Some(-4_000_000_000));
    assert_eq!(LogErr.derivative(500_000_000, 0), Some(2_000_000_000));
}

#[test]
fn log_loss_rejects_predictions_outside_the_unit_interval() {
    assert_eq!(LogErr.normal(1_200_000_000, 1_000_000_000), None);
    assert_eq!(LogErr.normal(-1, 0), None);
    assert_eq!(LogErr.derivative(1_200_000_000, 0), None);
}

#[test]
fn log_loss_rejects_targets_that_are_not_one_hot() {
    assert_eq!(LogErr.normal(500_000_000, 777), None);
    assert_eq!(LogErr.derivative(500_000_000, 777), None);
}

#[test]
fn log_loss_at_the_wrong_endpoint_is_a_defect() {
    assert_eq!(LogErr.normal(0, 1_000_000_000), None);
    assert_eq!(LogErr.normal(1_000_000_000, 0), None);
    assert_eq!(LogErr.derivative(0, 1_000_000_000), None);
}

#[test]
fn error_dispatch_matches_the_variants() {
    let mse = ErrorFunction::MSE(MSE);
    let log = ErrorFunction::LogErr(LogErr);
    assert_eq!(mse.normal(700_000_000, 200_000_000), MSE.normal(700_000_000, 200_000_000));
    assert_eq!(mse.derivative(700_000_000, 200_000_000), MSE.derivative(700_000_000, 200_000_000));
    assert_eq!(log.normal(500_000_000, 0), LogErr.normal(500_000_000, 0));
    assert_eq!(log.derivative(500_000_000, 0), LogErr.derivative(500_000_000, 0));
}
