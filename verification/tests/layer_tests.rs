use perceptron::fixed::SCALE;
use perceptron::network::NetworkLayer;

#[test]
fn layer_allocation_is_zero_filled() {
    let layer = NetworkLayer::new(3, 2);
    assert_eq!(layer.weights.matrix, vec![vec![0, 0], vec![0, 0], vec![0, 0]]);
    assert_eq!(layer.weights.gradient, vec![vec![0, 0], vec![0, 0], vec![0, 0]]);
    assert_eq!(layer.biases.biases, vec![0, 0, 0]);
    assert_eq!(layer.biases.gradient, vec![0, 0, 0]);
    assert_eq!(layer.activations.activations, vec![0, 0, 0]);
    assert_eq!(layer.activations.arguments, vec![0, 0, 0]);
}

#[test]
fn affine_computation_fills_both_caches() {
    let mut layer = NetworkLayer::new(2, 3);
    layer.weights.matrix = vec![vec![SCALE, 0, 0], vec![SCALE / 2, SCALE / 2, SCALE]];
    layer.biases.biases = vec![10, -10];
    let x: Vec<i64> = vec![100, 200, 300];
    layer.calculate_Z(&x);
    // row 0: 1.0 * 100 + 10
    // row 1: 0.5 * 100 + 0.5 * 200 + 1.0 * 300 - 10
    assert_eq!(layer.activations.arguments, vec![110, 440]);
    assert_eq!(layer.activations.activations, vec![110, 440]);
}

#[test]
fn leaky_ramp_applies_elementwise() {
    let mut layer = NetworkLayer::new(3, 1);
    layer.activations.activations = vec![100, 0, -100];
    layer.relu();
    assert_eq!(layer.activations.activations, vec![100, 0, -20]);
}

#[test]
fn tanh_applies_elementwise() {
    let mut layer = NetworkLayer::new(3, 1);
    layer.activations.activations = vec![0, 10 * SCALE, -10 * SCALE];
    layer.tanh();
    let a = &layer.activations.activations;
    assert_eq!(a[0], 0);
    assert!(60000 < a[1] && a[1] < SCALE);
    assert_eq!(a[2], -a[1]);
}

#[test]
fn softmax_replaces_activations_with_distribution() {
    let mut layer = NetworkLayer::new(2, 1);
    layer.activations.activations = vec![0, 0];
    layer.softmax();
    assert_eq!(layer.activations.activations, vec![SCALE / 2, SCALE / 2]);
}

#[test]
fn reset_and_randomize_activations() {
    let mut layer = NetworkLayer::new(4, 1);
    layer.randomize_activations(-50, 50);
    for v in layer.activations.activations.iter() {
        assert!(-50 <= *v && *v < 50);
    }
    layer.reset_activations();
    assert_eq!(layer.activations.activations, vec![0, 0, 0, 0]);
}

#[test]
fn randomize_layer_keeps_shapes() {
    let mut layer = NetworkLayer::new(3, 2);
    layer.randomize_layer(-1000, 1000);
    assert_eq!(layer.weights.matrix.len(), 3);
    for row in layer.weights.matrix.iter() {
        assert_eq!(row.len(), 2);
        for w in row.iter() {
            assert!(-1000 <= *w && *w < 1000);
        }
    }
    for b in layer.biases.biases.iter() {
        assert!(-1000 <= *b && *b < 1000);
    }
    // gradients and activations are untouched
    assert_eq!(layer.weights.gradient, vec![vec![0, 0], vec![0, 0], vec![0, 0]]);
    assert_eq!(layer.activations.activations, vec![0, 0, 0]);
}
