use matrix_mlp::activations::Activation;
use matrix_mlp::error::MathError;
use matrix_mlp::fixed::SCALE;
use matrix_mlp::network::Network;
use matrix_mlp::rng::RngSource;

#[test]
fn sigmoid_midpoint_and_range() {
    assert_eq!(Activation::sigmoid_function(0), SCALE / 2);
    assert_eq!(Activation::sigmoid_function(i64::MAX), SCALE - 1);
    assert_eq!(Activation::sigmoid_function(i64::MIN), 1);
    for x in [-6 * SCALE, -SCALE, -1, 0, 1, SCALE, 3 * SCALE, 6 * SCALE] {
        let y = Activation::sigmoid_function(x);
        assert!(0 < y && y < SCALE);
    }
    // symmetry around the midpoint
    assert_eq!(
        Activation::sigmoid_function(SCALE) + Activation::sigmoid_function(-SCALE),
        SCALE
    );
}

#[test]
fn sigmoid_is_monotone() {
    // across both knees, the saturation points, and zero
    let points: Vec<i64> = vec![
        i64::MIN,
        -400000,
        -327681,
        -327680,
        -152918,
        -152917,
        -152916,
        -65537,
        -65536,
        -1,
        0,
        1,
        65535,
        65536,
        65537,
        152916,
        152917,
        152918,
        327679,
        327680,
        400000,
        i64::MAX,
    ];
    for pair in points.windows(2) {
        let lo = Activation::sigmoid_function(pair[0]);
        let hi = Activation::sigmoid_function(pair[1]);
        assert!(
            lo <= hi,
            "sigmoid decreased between {} and {}: {} -> {}",
            pair[0],
            pair[1],
            lo,
            hi
        );
    }
    // the middle and outer segments join at the knee
    assert_eq!(Activation::sigmoid_function(152916), 60074);
    assert_eq!(Activation::sigmoid_function(152917), 60074);
}

#[test]
fn sigmoid_derivative_values() {
    assert_eq!(Activation::sigmoid_derivative(0), 0);
    assert_eq!(Activation::sigmoid_derivative(SCALE), 0);
    assert_eq!(Activation::sigmoid_derivative(SCALE / 2), SCALE / 4);
}

#[test]
fn new_needs_two_layers() {
    let mut src = RngSource::from_seed(1);
    let r = Network::new(vec![3], SCALE / 2, &mut src);
    assert!(matches!(r, Err(MathError::InvalidConfiguration)));
    let r2 = Network::new(vec![], SCALE / 2, &mut src);
    assert!(matches!(r2, Err(MathError::InvalidConfiguration)));
    assert!(Network::new(vec![2, 1], SCALE / 2, &mut src).is_ok());
}

#[test]
fn feed_forward_checks_input_width() {
    let mut src = RngSource::from_seed(2);
    let mut net = Network::new(vec![2, 2, 1], SCALE / 2, &mut src).unwrap();
    let r = net.feed_forward(vec![1, 2, 3]);
    assert!(matches!(r, Err(MathError::ShapeMismatch { .. })));
}

#[test]
fn feed_forward_output_shape_and_range() {
    let mut src = RngSource::from_seed(3);
    let mut net = Network::new(vec![2, 3, 2], SCALE / 2, &mut src).unwrap();
    let out = net.feed_forward(vec![SCALE, 0]).unwrap();
    assert_eq!(out.len(), 2);
    for v in out.iter() {
        assert!(0 < *v && *v < SCALE);
    }
    // deterministic: the same seeded network gives the same output
    let mut src2 = RngSource::from_seed(3);
    let mut net2 = Network::new(vec![2, 3, 2], SCALE / 2, &mut src2).unwrap();
    let out2 = net2.feed_forward(vec![SCALE, 0]).unwrap();
    assert_eq!(out, out2);
}

#[test]
fn train_rejects_mismatched_sequences() {
    let mut src = RngSource::from_seed(4);
    let mut net = Network::new(vec![2, 2, 1], SCALE / 2, &mut src).unwrap();
    let r = net.train(vec![vec![0, 0], vec![0, SCALE]], vec![vec![0]], 1);
    assert!(matches!(r, Err(MathError::InvalidConfiguration)));
}

#[test]
fn train_rejects_misshaped_examples() {
    let mut src = RngSource::from_seed(5);
    let mut net = Network::new(vec![2, 2, 1], SCALE / 2, &mut src).unwrap();
    let r = net.train(vec![vec![0, 0, 0]], vec![vec![0]], 1);
    assert!(matches!(r, Err(MathError::ShapeMismatch { .. })));
    let r2 = net.train(vec![vec![0, 0]], vec![vec![0, 0]], 1);
    assert!(matches!(r2, Err(MathError::ShapeMismatch { .. })));
}

fn mse(net: &mut Network, inputs: &[Vec<i64>], targets: &[Vec<i64>]) -> f64 {
    let mut total = 0.0f64;
    let mut n = 0.0f64;
    for (inp, tgt) in inputs.iter().zip(targets.iter()) {
        let out = net.feed_forward(inp.clone()).unwrap();
        for (o, t) in out.iter().zip(tgt.iter()) {
            let d = (*t - *o) as f64 / SCALE as f64;
            total += d * d;
            n += 1.0;
        }
    }
    total / n
}

#[test]
fn xor_training_reduces_loss() {
    let inputs = vec![
        vec![0, 0],
        vec![0, SCALE],
        vec![SCALE, 0],
        vec![SCALE, SCALE],
    ];
    let targets = vec![vec![0], vec![SCALE], vec![SCALE], vec![0]];
    let tolerance: i64 = 3 * SCALE / 10;

    let mut reached_targets = false;
    for seed in [11u64, 23, 47, 91, 140] {
        let mut src = RngSource::from_seed(seed);
        let mut net = Network::new(vec![2, 4, 1], 7 * SCALE / 10, &mut src).unwrap();
        let before = mse(&mut net, &inputs, &targets);
        net.train(inputs.clone(), targets.clone(), 4000).unwrap();
        let after = mse(&mut net, &inputs, &targets);
        assert!(
            after < before,
            "training did not reduce the error (seed {seed}: {before} -> {after})"
        );
        let mut close = true;
        for (inp, tgt) in inputs.iter().zip(targets.iter()) {
            let out = net.feed_forward(inp.clone()).unwrap();
            if (out[0] - tgt[0]).abs() >= tolerance {
                close = false;
            }
        }
        if close {
            reached_targets = true;
            break;
        }
    }
    assert!(
        reached_targets,
        "no seeded run pushed every output within tolerance of its target"
    );
}
