use perceptron::fixed::SCALE;
use perceptron::network::Network;
use perceptron::vecops::softmax_vec;

#[test]
fn construct_shapes() {
    let arch: Vec<usize> = vec![4, 3, 2];
    let net = Network::new(&arch);
    assert_eq!(net.network.len(), 3);
    // the input layer holds empty parameter storage
    assert_eq!(net.network[0].weights.matrix.len(), 0);
    assert_eq!(net.network[0].weights.gradient.len(), 0);
    assert_eq!(net.network[0].biases.biases.len(), 0);
    assert_eq!(net.network[0].activations.activations.len(), 4);
    // layer i has weight shape [sizes[i], sizes[i-1]]
    assert_eq!(net.network[1].weights.matrix.len(), 3);
    for row in net.network[1].weights.matrix.iter() {
        assert_eq!(row.len(), 4);
    }
    assert_eq!(net.network[1].biases.biases.len(), 3);
    assert_eq!(net.network[2].weights.matrix.len(), 2);
    for row in net.network[2].weights.matrix.iter() {
        assert_eq!(row.len(), 3);
    }
    assert_eq!(net.network[2].biases.biases.len(), 2);
    assert_eq!(net.train_sessions, 0);
}

#[test]
fn mount_is_row_major_flattening() {
    let arch: Vec<usize> = vec![4, 3, 2];
    let mut net = Network::new(&arch);
    let image: Vec<Vec<i64>> = vec![vec![1, 2], vec![3, 4]];
    net.mount(&image, 2);
    assert_eq!(net.network[0].activations.activations, vec![1, 2, 3, 4]);
}

#[test]
fn flatten_then_reshape_is_identity() {
    let arch: Vec<usize> = vec![6, 3, 2];
    let mut net = Network::new(&arch);
    let image: Vec<Vec<i64>> = vec![vec![10, 20, 30], vec![40, 50, 60]];
    net.mount(&image, 2);
    let flat = &net.network[0].activations.activations;
    let rows = 2;
    let cols = 3;
    let mut rebuilt: Vec<Vec<i64>> = Vec::new();
    for r in 0..rows {
        let mut row: Vec<i64> = Vec::new();
        for c in 0..cols {
            row.push(flat[r * cols + c]);
        }
        rebuilt.push(row);
    }
    assert_eq!(rebuilt, image);
}

#[test]
fn zero_network_forward_is_uniform() {
    let arch: Vec<usize> = vec![4, 3, 2];
    let mut net = Network::new(&arch);
    net.forward_calculate();
    // tanh(0) = 0 on the hidden layer
    assert_eq!(net.network[1].activations.activations, vec![0, 0, 0]);
    // uniform output: every entry is 1/outputSize
    assert_eq!(net.network[2].activations.activations, vec![SCALE / 2, SCALE / 2]);
}

#[test]
fn softmax_of_equal_arguments_is_uniform() {
    let out = softmax_vec(&vec![0, 0, 0, 0]);
    assert_eq!(out, vec![SCALE / 4, SCALE / 4, SCALE / 4, SCALE / 4]);
}

#[test]
fn softmax_sums_to_one_within_tolerance() {
    let v: Vec<i64> = vec![SCALE, 0, -SCALE / 2];
    let out = softmax_vec(&v);
    let total: i64 = out.iter().sum();
    assert!(total > SCALE - 3 && total <= SCALE);
    for p in out.iter() {
        assert!(0 <= *p && *p < SCALE);
    }
    // the largest argument gets the largest share
    assert!(out[0] > out[1] && out[1] > out[2]);
}

#[test]
fn cost_is_zero_exactly_at_target() {
    let arch: Vec<usize> = vec![4, 3, 2];
    let mut net = Network::new(&arch);
    net.network[2].activations.activations = vec![SCALE, 0];
    assert_eq!(net.cost(0), 0);
    assert!(net.cost(1) > 0);
}

#[test]
fn cost_grows_as_mass_shifts_away() {
    let arch: Vec<usize> = vec![4, 3, 2];
    let mut net = Network::new(&arch);
    net.network[2].activations.activations = vec![SCALE / 2, SCALE / 2];
    let halfway = net.cost(0);
    assert_eq!(halfway, 8192);
    net.network[2].activations.activations = vec![0, SCALE];
    let opposite = net.cost(0);
    assert_eq!(opposite, 32768);
    assert!(halfway < opposite);
}

#[test]
fn gradient_is_zero_when_output_equals_target() {
    let arch: Vec<usize> = vec![4, 3, 2];
    let mut net = Network::new(&arch);
    net.network[2].activations.activations = vec![SCALE, 0];
    net.initial_backpropagate(0);
    assert_eq!(net.network[2].biases.gradient, vec![0, 0]);
}

#[test]
fn gradient_against_uniform_softmax() {
    let arch: Vec<usize> = vec![4, 3, 2];
    let mut net = Network::new(&arch);
    // arguments stay zero, so the recomputed softmax is uniform and its
    // diagonal derivative is (1/2)(1/2) = 1/4 per entry
    net.initial_backpropagate(0);
    assert_eq!(net.network[2].biases.gradient, vec![-SCALE / 4, 0]);
}

#[test]
fn randomize_layers_stays_in_range() {
    let arch: Vec<usize> = vec![4, 3, 2];
    let mut net = Network::new(&arch);
    net.randomize_layers(-100, 100);
    for layer in net.network.iter().skip(1) {
        for row in layer.weights.matrix.iter() {
            for w in row.iter() {
                assert!(-100 <= *w && *w < 100);
            }
        }
        for b in layer.biases.biases.iter() {
            assert!(-100 <= *b && *b < 100);
        }
    }
    // the input layer keeps its empty parameter storage
    assert_eq!(net.network[0].weights.matrix.len(), 0);
}

#[test]
fn end_to_end_small_architecture() {
    let arch: Vec<usize> = vec![4, 3, 2];
    let mut net = Network::new(&arch);
    let image: Vec<Vec<i64>> = vec![vec![SCALE, 0, SCALE, 0]];
    net.mount(&image, 1);
    net.randomize_layers(-SCALE, SCALE);
    net.forward_calculate();
    let out = &net.network[2].activations.activations;
    assert_eq!(out.len(), 2);
    let total: i64 = out.iter().sum();
    assert!(total >= SCALE - 2 && total <= SCALE);
}
