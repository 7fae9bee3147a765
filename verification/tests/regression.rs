//! End-to-end and unit tests for the regression library. All quantities
//! are fixed-point micro-units: 1_000_000 micro-units per whole unit.

use linreg::estimate_price;
use linreg::denormalize;
use linreg::gradient_descent;
use linreg::normalize;
use linreg::train;
use linreg::Error;
use linreg::LinearModel;

const S: i64 = 1_000_000;

#[test]
fn normalize_two_points_exact() {
    let data: Vec<i64> = vec![1 * S, 3 * S];
    let (normed, mean, std) = normalize(&data).unwrap();
    assert_eq!(normed, vec![-1 * S, 1 * S]);
    assert_eq!(mean, 2 * S);
    assert_eq!(std, 1 * S);
}

#[test]
fn normalize_empty_dataset() {
    let data: Vec<i64> = vec![];
    assert_eq!(normalize(&data), Err(Error::EmptyDataset));
}

#[test]
fn normalize_single_sample_degenerate() {
    // One sample has zero variance, so its standard deviation is zero.
    let data: Vec<i64> = vec![42 * S];
    assert_eq!(normalize(&data), Err(Error::DegenerateFeature));
}

#[test]
fn normalize_constant_feature_degenerate() {
    let data: Vec<i64> = vec![7 * S, 7 * S, 7 * S];
    assert_eq!(normalize(&data), Err(Error::DegenerateFeature));
}

#[test]
fn normalized_mean_and_std_near_unit() {
    // The normalized sequence has mean close to 0 and standard
    // deviation close to 1 (here: within a few micro-units).
    let data: Vec<i64> = vec![100_000 * S, 50_000 * S, 150_000 * S];
    let (normed, _, _) = normalize(&data).unwrap();
    assert_eq!(normed, vec![0, -1_224_744, 1_224_744]);
    let sum: i64 = normed.iter().sum();
    assert!(sum.abs() <= 3);
    let (_, _, inner_std) = normalize(&normed).unwrap();
    assert!((inner_std - S).abs() <= 1_000);
}

#[test]
fn denormalize_exact_values() {
    // theta1 rescales by price_std / mileage_std = 3, and the intercept
    // moves back through both means: 0 * 3 + 10 - 3 * 2 = 4.
    let r = denormalize(0, 1 * S, 2 * S, 1 * S, 10 * S, 3 * S).unwrap();
    assert_eq!(r, (4 * S, 3 * S));
}

#[test]
fn denormalization_identity_scenario() {
    // Predicting a raw mileage with the de-normalized parameters agrees,
    // up to fixed-point rounding, with normalizing the mileage,
    // predicting in normalized space, and de-normalizing the prediction.
    let miles: Vec<i64> = vec![100_000 * S, 50_000 * S, 150_000 * S];
    let prices: Vec<i64> = vec![5_000 * S, 8_000 * S, 3_000 * S];
    let (mx, m_mean, m_std) = normalize(&miles).unwrap();
    let (px, p_mean, p_std) = normalize(&prices).unwrap();
    let (t0n, t1n) = gradient_descent(&mx, &px, 10_000, 1000).unwrap();
    let (t0d, t1d) = denormalize(t0n, t1n, m_mean, m_std, p_mean, p_std).unwrap();
    let x: i64 = 65_674 * S;
    let direct = estimate_price(x, t0d, t1d);
    let xn = ((x - m_mean) as i128 * S as i128 / m_std as i128) as i64;
    let yn = estimate_price(xn, t0n, t1n);
    let via_normalized = (yn as i128 * p_std as i128 / S as i128) as i64 + p_mean;
    assert!((direct - via_normalized).abs() < 50_000);
}

#[test]
fn training_is_deterministic() {
    let miles: Vec<i64> = vec![100_000 * S, 50_000 * S, 150_000 * S];
    let prices: Vec<i64> = vec![5_000 * S, 8_000 * S, 3_000 * S];
    let first = train(&miles, &prices, 10_000, 1000).unwrap();
    let second = train(&miles, &prices, 10_000, 1000).unwrap();
    assert_eq!(first.theta0, second.theta0);
    assert_eq!(first.theta1, second.theta1);
}

#[test]
fn convergence_on_synthetic_line() {
    // price = 10 - 0.002 * mileage plus noise within 1%: 1000 passes at
    // a learning rate of 0.01 recover both parameters within 5%.
    let noises: Vec<i64> = vec![3, -4, 5, -2, 1, -5, 4, -3, 2, -1, 0];
    let mut miles: Vec<i64> = Vec::new();
    let mut prices: Vec<i64> = Vec::new();
    for (i, nz) in noises.iter().enumerate() {
        let m: i64 = (500 + 300 * i as i64) * S;
        let truth: i64 = 10 * S - (2_000i128 * m as i128 / S as i128) as i64;
        miles.push(m);
        prices.push(truth + truth * nz / 1000);
    }
    let model = train(&miles, &prices, 10_000, 1000).unwrap();
    assert_eq!(model.theta0, 10_002_600);
    assert_eq!(model.theta1, -2_001);
    // Within 5% of the generating values 10.0 and -0.002.
    assert!((model.theta0 - 10 * S).abs() <= 10 * S / 20);
    assert!((model.theta1 - (-2_000)).abs() <= 100);
}

#[test]
fn end_to_end_prediction_in_range() {
    // Three records of (mileage, price); the prediction at a mileage
    // inside the training range stays strictly between the observed
    // price extremes.
    let miles: Vec<i64> = vec![100_000 * S, 50_000 * S, 150_000 * S];
    let prices: Vec<i64> = vec![5_000 * S, 8_000 * S, 3_000 * S];
    let model = train(&miles, &prices, 10_000, 1000).unwrap();
    assert_eq!(model.theta0, 10_332_733_333);
    assert_eq!(model.theta1, -49_994);
    let p = model.predict(65_674 * S);
    assert_eq!(p, 7_049_427_377);
    assert!(3_000 * S < p && p < 8_000 * S);
}

#[test]
fn estimate_price_exact() {
    // 2.0 + 0.5 * 4.0 == 4.0
    assert_eq!(estimate_price(4 * S, 2 * S, S / 2), 4 * S);
}

#[test]
fn new_model_predicts_zero() {
    let model = LinearModel::new();
    assert_eq!(model.theta0, 0);
    assert_eq!(model.theta1, 0);
    assert_eq!(model.predict(123_456), 0);
}

#[test]
fn train_empty_dataset() {
    let miles: Vec<i64> = vec![];
    let prices: Vec<i64> = vec![];
    assert_eq!(train(&miles, &prices, 10_000, 1000), Err(Error::EmptyDataset));
}

#[test]
fn train_overflow_on_huge_learning_rate() {
    // An absurd learning rate makes the parameters diverge until an
    // intermediate leaves the fixed-point range.
    let miles: Vec<i64> = vec![100_000 * S, 50_000 * S, 150_000 * S];
    let prices: Vec<i64> = vec![5_000 * S, 8_000 * S, 3_000 * S];
    let r = train(&miles, &prices, 2_000_000_000_000, 1000);
    assert_eq!(r, Err(Error::Overflow));
}

#[test]
fn gradient_descent_empty_dataset() {
    let xs: Vec<i64> = vec![];
    let ys: Vec<i64> = vec![];
    assert_eq!(gradient_descent(&xs, &ys, 10_000, 1000), Err(Error::EmptyDataset));
}

#[test]
fn gradient_descent_one_pass_exact() {
    // From (0, 0) on one pass: the error on each sample is -y, so the
    // mean gradient for theta0 is 0 and for theta1 is -1; theta1 moves
    // by exactly the learning rate.
    let xs: Vec<i64> = vec![-1 * S, 1 * S];
    let ys: Vec<i64> = vec![-1 * S, 1 * S];
    assert_eq!(gradient_descent(&xs, &ys, 10_000, 1), Ok((0, 10_000)));
}

#[test]
fn zero_passes_change_nothing() {
    let xs: Vec<i64> = vec![-1 * S, 1 * S];
    let ys: Vec<i64> = vec![-1 * S, 1 * S];
    assert_eq!(gradient_descent(&xs, &ys, 10_000, 0), Ok((0, 0)));
}
