use evosnake::matrix::{ColVector, Matrix};
use evosnake::scalar::is_above_floor;
use evosnake::network::{
    Layer, NetInput, Network, INNER_LAYER_VALUES, INPUTS, LEARNING_RATE_DIVISOR, MUTATION_VALUES,
    NETWORK_VALUES, OUTPUTS, STARTING_VALUE,
};

fn column<const N: usize>(values: [f32; N]) -> ColVector<f32, N> {
    Matrix::new_from_generator(|i, _| values[i])
}

fn zero_network() -> Network<f32> {
    Network::from_values(&vec![0.0f32; NETWORK_VALUES])
}

#[test]
fn the_sizes_of_a_network_add_up() {
    assert_eq!(INPUTS, 12);
    assert_eq!(OUTPUTS, 4);
    assert_eq!(INNER_LAYER_VALUES, 12 * 12 + 12);
    assert_eq!(NETWORK_VALUES, 2 * INNER_LAYER_VALUES + 4 * 12 + 4);
    assert_eq!(MUTATION_VALUES, 2 * INNER_LAYER_VALUES);
    assert_eq!(STARTING_VALUE, 6);
    assert_eq!(LEARNING_RATE_DIVISOR, 2);
}

#[test]
fn a_network_of_zeros_answers_zeros_and_chooses_the_first_action() {
    let network = zero_network();
    let inputs: [[f32; 12]; 3] = [
        [0.0; 12],
        [1.0; 12],
        [1.0, 0.0, 1.0, 0.0, 0.0, 0.0, 1.0, 0.0, 0.0, 1.0, 1.0, 0.0],
    ];
    for input in inputs {
        let out = network.forward(column(input));
        assert_eq!(out.to_vecs(), vec![vec![0.0f32]; 4]);
        assert_eq!(network.choice_with_highest_confidence(column(input)), 0);
    }
}

#[test]
fn a_drawn_network_takes_its_values_in_the_order_of_the_draws() {
    let mut next = 0.0f32;
    let mut draw = || {
        next += 1.0;
        next
    };
    let network = Network::new(&mut draw);
    assert_eq!(*network.first.matrix.get_unchecked(0, 0), 1.0);
    assert_eq!(*network.first.matrix.get_unchecked(0, 11), 12.0);
    assert_eq!(*network.first.matrix.get_unchecked(1, 0), 13.0);
    assert_eq!(*network.first.matrix.get_unchecked(11, 11), 144.0);
    assert_eq!(*network.first.bias.get_unchecked(0, 0), 145.0);
    assert_eq!(*network.first.bias.get_unchecked(11, 0), 156.0);
    assert_eq!(*network.second.matrix.get_unchecked(0, 0), 157.0);
    assert_eq!(*network.second.bias.get_unchecked(11, 0), 312.0);
    assert_eq!(*network.third.matrix.get_unchecked(0, 0), 313.0);
    assert_eq!(*network.third.matrix.get_unchecked(3, 11), 360.0);
    assert_eq!(*network.third.bias.get_unchecked(0, 0), 361.0);
    assert_eq!(*network.third.bias.get_unchecked(3, 0), 364.0);
    assert_eq!(next, 364.0);
}

#[test]
fn the_activation_is_a_leaky_ramp() {
    let layer: Layer<f32, 1, 1> = Layer::from_values(&vec![2.0, 1.0], 0);
    assert_eq!(layer.forward(column([1.0])).to_vecs(), vec![vec![3.0f32]]);
    assert_eq!(layer.forward(column([-0.5])).to_vecs(), vec![vec![0.0f32]]);
    assert_eq!(layer.forward(column([-3.0])).to_vecs(), vec![vec![-5.0f32 / 100.0]]);
    assert_eq!(layer.forward(column([-50.5])).to_vecs(), vec![vec![-100.0f32 / 100.0]]);
    assert_eq!(layer.forward(column([1000.0])).to_vecs(), vec![vec![2001.0f32]]);
}

#[test]
fn a_layer_is_weights_times_input_plus_bias() {
    let values = vec![1.0f32, 2.0, 3.0, 4.0, 5.0, 6.0, 0.5, -100.0];
    let layer: Layer<f32, 3, 2> = Layer::from_values(&values, 0);
    let out = layer.forward(column([1.0, 1.0, 1.0]));
    assert_eq!(out.to_vecs(), vec![vec![6.5f32], vec![-85.0f32 / 100.0]]);
    let shifted: Layer<f32, 3, 2> = Layer::from_values(&[vec![9.0f32, 9.0], values].concat(), 2);
    assert_eq!(shifted.matrix.to_vecs(), layer.matrix.to_vecs());
    assert_eq!(shifted.bias.to_vecs(), layer.bias.to_vecs());
}

#[test]
fn the_choice_is_the_greatest_output_and_the_first_of_equals() {
    let cases: [([f32; 4], usize); 13] = [
        ([f32::NAN, 1.0, 0.5, f32::NAN], 1),
        ([f32::NAN, -3.0, -2.0, -2.0], 2),
        ([f32::NAN, f32::NAN, f32::NAN, f32::NAN], 0),
        ([f32::NEG_INFINITY, f32::NEG_INFINITY, f32::NEG_INFINITY, f32::NEG_INFINITY], 0),
        ([f32::NAN, f32::NEG_INFINITY, f32::NAN, f32::NEG_INFINITY], 0),
        ([f32::NAN, f32::NEG_INFINITY, f32::NAN, f32::INFINITY], 3),
        ([1.0, 5.0, 5.0, 2.0], 1),
        ([3.0, 3.0, 3.0, 3.0], 0),
        ([-4.0, -2.0, -3.0, -2.0], 1),
        ([0.0, 0.0, 0.0, 0.5], 3),
        ([7.0, 1.0, 7.0, 1.0], 0),
        ([-1.0, -1.0, 0.0, 0.0], 2),
        ([f32::NEG_INFINITY, f32::NEG_INFINITY, -1.0e30, f32::NEG_INFINITY], 2),
    ];
    for (biases, expected) in cases {
        let mut values = vec![0.0f32; NETWORK_VALUES];
        for (k, bias) in biases.iter().enumerate() {
            values[360 + k] = *bias * 100.0;
            if *bias > 0.0 {
                values[360 + k] = *bias;
            }
        }
        let network = Network::from_values(&values);
        assert_eq!(network.choice_with_highest_confidence(column([1.0; 12])), expected);
    }
}

#[test]
fn the_layers_are_applied_one_after_the_other() {
    let mut values = vec![0.0f32; NETWORK_VALUES];
    values[0] = 2.0;
    values[12 + 1] = -1.0;
    values[144] = 1.0;
    values[156] = 3.0;
    values[156 + 12 + 1] = 1.0;
    values[312] = 1.0;
    values[312 + 12 + 1] = 1.0;
    values[312 + 24] = 1.0;
    values[312 + 24 + 1] = 1.0;
    values[363] = 0.25;
    let network = Network::from_values(&values);
    let mut input = [0.0f32; 12];
    input[0] = 4.0;
    input[1] = 50.0;
    let out = network.forward(column(input));
    let leaked = -50.0f32 / 100.0 / 100.0;
    assert_eq!(
        out.to_vecs(),
        vec![vec![27.0f32], vec![leaked / 100.0], vec![27.0f32 + leaked], vec![0.25f32]]
    );
    assert_eq!(network.choice_with_highest_confidence(column(input)), 0);
}

#[test]
fn a_mutation_changes_the_first_layer_twice_and_nothing_else() {
    let mut network = Network::from_values(&(0..NETWORK_VALUES).map(|k| k as f32).collect());
    let before = network.clone();
    let noise: Vec<f32> = (0..MUTATION_VALUES).map(|k| 1000.0 * (k as f32 + 1.0)).collect();
    network.perturb(&noise, 0);
    for i in 0..12 {
        for j in 0..12 {
            let slot = i * 12 + j;
            let expected = slot as f32 + noise[slot] + noise[156 + slot];
            assert_eq!(*network.first.matrix.get_unchecked(i, j), expected);
        }
        let expected = (144 + i) as f32 + noise[144 + i] + noise[300 + i];
        assert_eq!(*network.first.bias.get_unchecked(i, 0), expected);
    }
    assert_eq!(network.second.matrix.to_vecs(), before.second.matrix.to_vecs());
    assert_eq!(network.second.bias.to_vecs(), before.second.bias.to_vecs());
    assert_eq!(network.third.matrix.to_vecs(), before.third.matrix.to_vecs());
    assert_eq!(network.third.bias.to_vecs(), before.third.bias.to_vecs());
}

#[test]
fn a_mutation_reads_its_values_from_the_given_position() {
    let mut network = zero_network();
    let mut noise = vec![7.0f32; 5];
    noise.extend((0..MUTATION_VALUES).map(|k| k as f32));
    network.perturb(&noise, 5);
    assert_eq!(*network.first.matrix.get_unchecked(0, 0), 0.0 + 156.0);
    assert_eq!(*network.first.matrix.get_unchecked(0, 1), 1.0 + 157.0);
    assert_eq!(*network.first.bias.get_unchecked(11, 0), 155.0 + 311.0);
}

#[test]
fn a_random_edit_draws_one_value_for_each_change() {
    let mut network = zero_network();
    let mut calls = 0;
    let mut draw = || {
        calls += 1;
        0.25f32
    };
    network.randomly_edit(&mut draw);
    assert_eq!(calls, MUTATION_VALUES);
    assert_eq!(network.first.matrix.to_vecs(), vec![vec![0.5f32; 12]; 12]);
    assert_eq!(network.first.bias.to_vecs(), vec![vec![0.5f32]; 12]);
    assert_eq!(network.second.matrix.to_vecs(), vec![vec![0.0f32; 12]; 12]);
    assert_eq!(network.third.bias.to_vecs(), vec![vec![0.0f32]; 4]);
}

#[test]
fn the_forward_pass_gives_the_same_bits_each_time() {
    let network = Network::from_values(
        &(0..NETWORK_VALUES).map(|k| ((k * 37 % 101) as f32 - 50.0) / 9.0).collect(),
    );
    let input: NetInput<f32> = column([1.0, 0.0, 0.0, 1.0, 0.0, 1.0, 0.0, 0.0, 1.0, 0.0, 0.0, 1.0]);
    let once = network.forward(input.clone());
    let twice = network.forward(input.clone());
    for i in 0..4 {
        assert_eq!(once.get_unchecked(i, 0).to_bits(), twice.get_unchecked(i, 0).to_bits());
    }
    let action = network.choice_with_highest_confidence(input);
    assert!(action < 4);
}

#[test]
fn the_matrix_of_the_networks_is_the_matrix_of_the_library() {
    let weights: evosnake::network::Matrix<f32, 1, 2> = Matrix::new_from_slice([[1.5, 2.5]]);
    let input: evosnake::network::ColVector<f32, 2> = column([2.0, 4.0]);
    assert_eq!(weights.mul(&input).to_vecs(), vec![vec![13.0f32]]);
}

#[test]
fn the_least_value_is_not_above_the_floor() {
    assert!(is_above_floor(0.0f32));
    assert!(is_above_floor(-0.0f32));
    assert!(is_above_floor(5.5f32));
    assert!(is_above_floor(f32::INFINITY));
    assert!(is_above_floor(-1.0f32));
    assert!(is_above_floor(f32::MIN));
    assert!(is_above_floor(-f32::MIN_POSITIVE));
    assert!(is_above_floor(-f32::from_bits(1)));
    assert!(!is_above_floor(f32::NEG_INFINITY));
    assert!(!is_above_floor(f32::NAN));
    assert!(is_above_floor(f64::MIN));
    assert!(!is_above_floor(f64::NEG_INFINITY));
    assert!(is_above_floor(i64::MIN));
    assert!(is_above_floor(-1i64));
    assert!(is_above_floor(0i32));
}
